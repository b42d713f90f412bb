//! A batched constant-product market maker that resists front-running.
//!
//! Swap intents are not executed on arrival: each is escrowed and queued per
//! direction, and a settlement clears the whole batch at once. The clearing
//! alternates the two sides' fee-discounted flows over a number of fragments
//! along the pool's product curve, and every participant of a side is paid
//! pro rata to what it escrowed, so a position in the queue carries no
//! advantage.
//!
//! - [`types`]: amounts, pairs, swap specifications, events, errors and the
//!   parameters.
//! - [`pricing`]: the fee-adjusted exact-input and exact-output formulas and
//!   their rounding laws.
//! - [`clearing`]: batch totals, the fragmented clearing simulation and the
//!   pro-rata shares.
//! - [`liquidity`]: the proportional join of a liquidity provider.
//! - [`ledger`]: the currency balances and the registry of fungible tokens
//!   that custody and payouts move through.
//! - [`pallet`]: the market maker's state and its operations.
//!
//! An account that enqueues several times on one side is paid once per
//! settlement, weighted by its cumulative escrow, not by how often it stands
//! in the queue. A settlement also fails with `Underflow` where the clearing
//! would leave a reserve at zero, since the pool could no longer price.
pub mod types;
pub mod pricing;
pub mod clearing;
pub mod ledger;
pub mod liquidity;
pub mod pallet;
