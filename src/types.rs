use vstd::prelude::*;

verus! {

/// An account identifier.
pub type AccountId = u64;

/// A fungible asset identifier (traded assets and liquidity tokens alike).
pub type AssetId = u32;

/// An amount of currency or of an asset.
pub type Balance = u128;

/// The largest representable amount.
pub const MAX_BALANCE: u128 = 0xffff_ffff_ffff_ffff_ffff_ffff_ffff_ffff;

/// Errors of the market maker.
#[derive(Clone, Copy, Debug, PartialEq, Eq, Structural)]
pub enum Error {
    /// Asset with the specified ID does not exist
    AssetNotFound,
    /// Pair already exists
    PairAlreadyExists,
    /// Provided liquidity token ID is already in use
    TokenIdAlreadyInUse,
    /// Not enough free balance to add liquidity or perform trade
    BalanceTooLow,
    /// Not enough tokens to add liquidity or perform trade
    NotEnoughTokens,
    /// Specified account doesn't own enough liquidity in the pair
    ProviderLiquidityTooLow,
    /// No pair found for the given asset id
    PairNotFound,
    /// Zero value provided for a trade amount
    TradeAmountIsZero,
    /// Zero value provided for `max_tokens`
    MaxTokensIsZero,
    /// Zero value provided for `currency_amount`
    CurrencyAmountIsZero,
    /// Value provided for `token_amount` is too low
    TokenAmountTooLow,
    /// Value provided for `currency_amount` is too high
    CurrencyAmountTooHigh,
    /// Value provided for `currency_amount` is too low
    CurrencyAmountTooLow,
    /// Zero value provided for `min_liquidity`
    MinLiquidityIsZero,
    /// Value provided for `max_tokens` is too low
    MaxTokensTooLow,
    /// Value provided for `min_liquidity` is too high
    MinLiquidityTooHigh,
    /// Zero value provided for `liquidity_amount`
    LiquidityAmountIsZero,
    /// Zero value provided for `min_currency`
    MinCurrencyIsZero,
    /// Zero value provided for `min_tokens`
    MinTokensIsZero,
    /// The price moved past the bound the trader accepted
    SlippageExceeded,
    /// Value provided for `max_currency` is too low
    MaxCurrencyTooLow,
    /// Value provided for `min_bought_tokens` is too high
    MinBoughtTokensTooHigh,
    /// Value provided for `max_sold_tokens` is too low
    MaxSoldTokensTooLow,
    /// There is not enough liquidity in the pair to perform the trade
    OverLiquidityBalance,
    /// An amount left the representable range
    Overflow,
    /// A simulated reserve was driven to zero
    Underflow,
    /// The deadline given for the operation has passed
    DeadlinePassed,
    /// A queue holds fewer intents than settlement needs
    QueueTooSmall,
    /// The simulated currency reserve exceeds what the pool could hold
    CurrencyOverflow,
    /// The simulated asset reserve exceeds what the pool could hold
    AssetOverflow,
    /// Custody holds less currency than the settled reserve
    CurrencyLeak,
    /// Custody holds less of the asset than the settled reserve
    AssetLeak,
}

/// A trading pair: the pool of one asset against the currency.
#[derive(Clone, Copy, Debug, PartialEq, Eq, Structural)]
pub struct Pair {
    pub asset_id: AssetId,
    pub currency_reserve: Balance,
    pub token_reserve: Balance,
    pub liquidity_token_id: AssetId,
}

/// What a direct swap fixes: its input (with the least output accepted) or its
/// output (with the most input accepted).
#[derive(Clone, Copy, Debug, PartialEq, Eq, Structural)]
pub enum Swap {
    BasedInput { input_amount: Balance, min_output: Balance },
    BasedOutput { max_input: Balance, output_amount: Balance },
}

/// Records of what the market maker did, in the order it did them.
#[derive(Clone, Copy, Debug, PartialEq, Eq, Structural)]
pub enum Event {
    /// A new pair was created (asset_id, liquidity_token_id)
    PairCreated(AssetId, AssetId),
    /// Liquidity was added (provider, asset_id, currency_amount, token_amount, liquidity_minted)
    LiquidityAdded(AccountId, AssetId, Balance, Balance, Balance),
    /// Currency was traded for an asset (asset_id, buyer, currency_amount, token_amount)
    SwappedCurrencyForAsset(AssetId, AccountId, Balance, Balance),
    /// An asset was traded for currency (asset_id, buyer, currency_amount, token_amount)
    SwappedAssetForCurrency(AssetId, AccountId, Balance, Balance),
    /// A currency-for-asset intent was queued (asset_id, buyer, amount_in)
    AddedSwapCurrencyForAsset(AssetId, AccountId, Balance),
    /// An asset-for-currency intent was queued (asset_id, buyer, amount_in)
    AddedSwapAssetForCurrency(AssetId, AccountId, Balance),
    /// A batch was settled (asset_id, currency_out, asset_out)
    DistributeSettlement(AssetId, Balance, Balance),
}

/// The parameters of a market maker.
#[derive(Clone, Copy, Debug, PartialEq, Eq, Structural)]
pub struct Config {
    /// The account that holds the pools' custody.
    pub pallet_account: AccountId,
    /// Provider fee numerator.
    pub provider_fee_numerator: Balance,
    /// Provider fee denominator.
    pub provider_fee_denominator: Balance,
    /// Minimum initial currency deposit of a pair.
    pub min_initial_currency: Balance,
    /// Minimum initial token deposit of a pair.
    pub min_initial_token: Balance,
    /// Number of fragments of the clearing simulation.
    pub fragment: u32,
    /// Length each queue must reach before a batch may be settled.
    pub min_queue_amount: u32,
    /// Currency units worth one asset unit.
    pub currency_per_asset: Balance,
}

impl Config {
    /// The fee is below 100%, there is at least one fragment, the
    /// conversion rate is positive and a pair starts with positive reserves.
    pub open spec fn wf(&self) -> bool {
        &&& self.provider_fee_numerator < self.provider_fee_denominator
        &&& self.min_initial_currency >= 1
        &&& self.min_initial_token >= 1
        &&& self.fragment >= 1
        &&& self.currency_per_asset >= 1
    }

    /// The part of a traded amount that is not fee, over the denominator.
    pub open spec fn net(&self) -> int {
        self.provider_fee_denominator - self.provider_fee_numerator
    }

    /// An asset amount in currency units.
    pub open spec fn to_currency(&self, a: int) -> int {
        a * self.currency_per_asset
    }

    /// A currency amount in asset units (rounded down).
    pub open spec fn to_asset(&self, c: int) -> int {
        c / (self.currency_per_asset as int)
    }

    pub fn pallet_account(&self) -> (r: AccountId)
        ensures
            r == self.pallet_account,
    {
        self.pallet_account
    }

    pub fn net_amount_numerator(&self) -> (r: Balance)
        requires
            self.wf(),
        ensures
            r == self.net(),
            r > 0,
    {
        self.provider_fee_denominator - self.provider_fee_numerator
    }

    /// Converts an asset amount to currency units; `None` where the result
    /// does not fit.
    pub fn asset_to_currency(&self, a: Balance) -> (r: Option<Balance>)
        ensures
            r is Some <==> self.to_currency(a as int) <= MAX_BALANCE,
            r matches Some(v) ==> v == self.to_currency(a as int),
    {
        a.checked_mul(self.currency_per_asset)
    }

    /// Converts a currency amount to asset units.
    pub fn currency_to_asset(&self, c: Balance) -> (r: Balance)
        requires
            self.wf(),
        ensures
            r == self.to_asset(c as int),
            r <= c,
    {
        c / self.currency_per_asset
    }
}

} // verus!
