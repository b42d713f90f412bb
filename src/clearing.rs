use vstd::prelude::*;
use crate::types::{Config, Error, Pair, AccountId, Balance, MAX_BALANCE};
use crate::pricing::lemma_floor_bounds;

verus! {

/// Sum of the amounts of a list of (account, amount) entries.
pub open spec fn total_of(s: Seq<(AccountId, Balance)>) -> int
    decreases s.len(),
{
    if s.len() == 0 {
        0
    } else {
        total_of(s.drop_last()) + s.last().1
    }
}

/// The part of `out` owed to a contribution `amount` out of `total`
/// (nothing where the total is zero).
pub open spec fn share(out: int, amount: int, total: int) -> int {
    if total == 0 {
        0
    } else {
        (out * amount) / total
    }
}

/// Each entry's share of `out`, in the entries' order.
pub open spec fn shares(s: Seq<(AccountId, Balance)>, out: int, total: int) -> Seq<(AccountId, Balance)> {
    Seq::new(s.len(), |i: int| (s[i].0, share(out, s[i].1 as int, total) as Balance))
}

/// One fragment of the clearing simulation: the currency side's increment
/// moves the asset reserve along the product curve, then the asset side's
/// increment moves the currency reserve back.
pub open spec fn fragment_step(k: int, c: int, dc: int, da: int) -> Result<(int, int), Error> {
    let c1 = c + dc;
    if c1 > MAX_BALANCE {
        Err(Error::Overflow)
    } else if c1 == 0 {
        Err(Error::Underflow)
    } else {
        let a1 = k / c1 + da;
        if a1 > MAX_BALANCE {
            Err(Error::Overflow)
        } else if a1 == 0 {
            Err(Error::Underflow)
        } else {
            Ok((k / a1, a1))
        }
    }
}

/// The (currency, asset) reserves after `n` fragments, starting from `(c, a)`.
pub open spec fn clearing(k: int, c: int, a: int, dc: int, da: int, n: nat) -> Result<(int, int), Error>
    decreases n,
{
    if n == 0 {
        Ok((c, a))
    } else {
        match clearing(k, c, a, dc, da, (n - 1) as nat) {
            Err(e) => Err(e),
            Ok((c1, _a1)) => fragment_step(k, c1, dc, da),
        }
    }
}

/// What settling a batch computes: the clearing reserves (both in currency
/// units) and what leaves the pool on each side (both in currency units).
#[derive(Clone, Copy, Debug, PartialEq, Eq, Structural)]
pub struct Clearing {
    pub temp_currency: Balance,
    pub temp_asset: Balance,
    pub currency_out: Balance,
    pub asset_out: Balance,
}

/// `total * numerator / denominator` of the fee parameters, if the product fits.
pub open spec fn fee_scaled(cfg: Config, total: int) -> Result<int, Error> {
    if total * cfg.provider_fee_numerator > MAX_BALANCE {
        Err(Error::Overflow)
    } else {
        Ok(total * cfg.provider_fee_numerator / (cfg.provider_fee_denominator as int))
    }
}

/// The outputs, once the simulated reserves `(tc, ta)` are known.
pub open spec fn clearing_outputs(c0: int, a0: int, total_c: int, total_a: int, tc: int, ta: int) -> Result<Clearing, Error> {
    if c0 + total_c > MAX_BALANCE {
        Err(Error::Overflow)
    } else if tc > c0 + total_c {
        Err(Error::CurrencyOverflow)
    } else if a0 + total_a > MAX_BALANCE {
        Err(Error::Overflow)
    } else if ta > a0 + total_a {
        Err(Error::AssetOverflow)
    } else {
        Ok(Clearing {
            temp_currency: tc as Balance,
            temp_asset: ta as Balance,
            currency_out: (c0 + total_c - tc) as Balance,
            asset_out: (a0 + total_a - ta) as Balance,
        })
    }
}

/// Settlement arithmetic of a batch with `total_c` currency and `total_a`
/// asset units against `pair`: fee discount, fragmented simulation, outputs.
pub open spec fn settlement_plan(cfg: Config, pair: Pair, total_c: int, total_a: int) -> Result<Clearing, Error> {
    let total_ac = cfg.to_currency(total_a);
    let a0 = cfg.to_currency(pair.token_reserve as int);
    let c0 = pair.currency_reserve as int;
    if total_ac > MAX_BALANCE {
        Err(Error::Overflow)
    } else {
        match fee_scaled(cfg, total_c) {
            Err(e) => Err(e),
            Ok(mod_c) => match fee_scaled(cfg, total_ac) {
                Err(e) => Err(e),
                Ok(mod_a) => if a0 > MAX_BALANCE || c0 * a0 > MAX_BALANCE {
                    Err(Error::Overflow)
                } else {
                    match clearing(c0 * a0, c0, a0, mod_c / (cfg.fragment as int), mod_a / (cfg.fragment as int), cfg.fragment as nat) {
                        Err(e) => Err(e),
                        Ok((tc, ta)) => clearing_outputs(c0, a0, total_c, total_ac, tc, ta),
                    }
                },
            },
        }
    }
}

/// Sum of the amounts of `entries`; `Overflow` where it does not fit.
pub fn calculate_cumulative(entries: &Vec<(AccountId, Balance)>) -> (r: Result<Balance, Error>)
    ensures
        r is Ok <==> total_of(entries@) <= MAX_BALANCE,
        r matches Ok(v) ==> v == total_of(entries@),
        r is Err ==> r == Err::<Balance, Error>(Error::Overflow),
{
    let mut acc: Balance = 0;
    let mut i: usize = 0;
    while i < entries.len()
        invariant
            0 <= i <= entries@.len(),
            acc == total_of(entries@.subrange(0, i as int)),
        decreases entries@.len() - i,
    {
        assert(entries@.subrange(0, i as int + 1).drop_last() == entries@.subrange(0, i as int));
        let amount = entries[i].1;
        if acc > MAX_BALANCE - amount {
            proof {
                lemma_total_prefix_le(entries@, i as int + 1);
            }
            return Err(Error::Overflow);
        }
        acc = acc + amount;
        i = i + 1;
    }
    assert(entries@.subrange(0, i as int) == entries@);
    Ok(acc)
}

/// The sum of a prefix never exceeds the sum of the whole list.
pub proof fn lemma_total_prefix_le(s: Seq<(AccountId, Balance)>, n: int)
    requires
        0 <= n <= s.len(),
    ensures
        total_of(s.subrange(0, n)) <= total_of(s),
    decreases s.len() - n,
{
    if n < s.len() {
        lemma_total_prefix_le(s, n + 1);
        assert(s.subrange(0, n + 1).drop_last() == s.subrange(0, n));
    } else {
        assert(s.subrange(0, n) == s);
    }
}

/// `total * numerator / denominator` of the fee parameters.
pub fn fee_discount(cfg: &Config, total: Balance) -> (r: Result<Balance, Error>)
    requires
        cfg.wf(),
    ensures
        fee_scaled(*cfg, total as int) == match r {
            Ok(v) => Ok::<int, Error>(v as int),
            Err(e) => Err(e),
        },
{
    match total.checked_mul(cfg.provider_fee_numerator) {
        Some(p) => Ok(p / cfg.provider_fee_denominator),
        None => Err(Error::Overflow),
    }
}

/// Runs `fragment` fragments of the clearing simulation on the product
/// `k`, from reserves `(c0, a0)`, with per-fragment increments `dc` and `da`.
pub fn clearing_reserves(k: Balance, c0: Balance, a0: Balance, dc: Balance, da: Balance, fragment: u32) -> (r: Result<(Balance, Balance), Error>)
    ensures
        clearing(k as int, c0 as int, a0 as int, dc as int, da as int, fragment as nat) == match r {
            Ok((c, a)) => Ok::<(int, int), Error>((c as int, a as int)),
            Err(e) => Err(e),
        },
{
    let mut temp_c: Balance = c0;
    let mut temp_a: Balance = a0;
    let mut i: u32 = 0;
    while i < fragment
        invariant
            0 <= i <= fragment,
            clearing(k as int, c0 as int, a0 as int, dc as int, da as int, i as nat) == Ok::<(int, int), Error>((temp_c as int, temp_a as int)),
        decreases fragment - i,
    {
        let c1 = match temp_c.checked_add(dc) {
            Some(v) => v,
            None => {
                proof {
                    lemma_clearing_stops(k as int, c0 as int, a0 as int, dc as int, da as int, (i + 1) as nat, fragment as nat);
                }
                return Err(Error::Overflow);
            },
        };
        if c1 == 0 {
            proof {
                lemma_clearing_stops(k as int, c0 as int, a0 as int, dc as int, da as int, (i + 1) as nat, fragment as nat);
            }
            return Err(Error::Underflow);
        }
        let a1 = match (k / c1).checked_add(da) {
            Some(v) => v,
            None => {
                proof {
                    lemma_clearing_stops(k as int, c0 as int, a0 as int, dc as int, da as int, (i + 1) as nat, fragment as nat);
                }
                return Err(Error::Overflow);
            },
        };
        if a1 == 0 {
            proof {
                lemma_clearing_stops(k as int, c0 as int, a0 as int, dc as int, da as int, (i + 1) as nat, fragment as nat);
            }
            return Err(Error::Underflow);
        }
        temp_a = a1;
        temp_c = k / a1;
        i = i + 1;
    }
    Ok((temp_c, temp_a))
}

/// Once the simulation fails, every longer run fails the same way.
pub proof fn lemma_clearing_stops(k: int, c: int, a: int, dc: int, da: int, n: nat, m: nat)
    requires
        n <= m,
        clearing(k, c, a, dc, da, n) is Err,
    ensures
        clearing(k, c, a, dc, da, m) == clearing(k, c, a, dc, da, n),
    decreases m - n,
{
    if n < m {
        lemma_clearing_stops(k, c, a, dc, da, n, (m - 1) as nat);
    }
}

/// Computes the clearing reserves and outputs of a batch.
pub fn settle_plan(cfg: &Config, pair: &Pair, total_c: Balance, total_a: Balance) -> (r: Result<Clearing, Error>)
    requires
        cfg.wf(),
    ensures
        r == settlement_plan(*cfg, *pair, total_c as int, total_a as int),
{
    let total_ac = match cfg.asset_to_currency(total_a) {
        Some(v) => v,
        None => return Err(Error::Overflow),
    };
    let mod_c = fee_discount(cfg, total_c)?;
    let mod_a = fee_discount(cfg, total_ac)?;
    let c0 = pair.currency_reserve;
    let a0 = match cfg.asset_to_currency(pair.token_reserve) {
        Some(v) => v,
        None => return Err(Error::Overflow),
    };
    let k = match c0.checked_mul(a0) {
        Some(v) => v,
        None => return Err(Error::Overflow),
    };
    let fragment = cfg.fragment;
    let (tc, ta) = clearing_reserves(k, c0, a0, mod_c / (fragment as u128), mod_a / (fragment as u128), fragment)?;
    let c_sum = match c0.checked_add(total_c) {
        Some(v) => v,
        None => return Err(Error::Overflow),
    };
    if tc > c_sum {
        return Err(Error::CurrencyOverflow);
    }
    let a_sum = match a0.checked_add(total_ac) {
        Some(v) => v,
        None => return Err(Error::Overflow),
    };
    if ta > a_sum {
        return Err(Error::AssetOverflow);
    }
    Ok(Clearing { temp_currency: tc, temp_asset: ta, currency_out: c_sum - tc, asset_out: a_sum - ta })
}

/// Each entry's share of `out`, pro rata to its amount out of `total`;
/// `Overflow` where some `out * amount` does not fit.
pub fn pro_rata(entries: &Vec<(AccountId, Balance)>, out: Balance, total: Balance) -> (r: Result<Vec<(AccountId, Balance)>, Error>)
    ensures
        r is Ok <==> forall|i: int| 0 <= i < entries@.len() ==> out * #[trigger] entries@[i].1 <= MAX_BALANCE,
        r matches Ok(v) ==> v@ == shares(entries@, out as int, total as int),
        r is Err ==> r == Err::<Vec<(AccountId, Balance)>, Error>(Error::Overflow),
{
    let mut paid: Vec<(AccountId, Balance)> = Vec::new();
    let mut i: usize = 0;
    while i < entries.len()
        invariant
            0 <= i <= entries@.len(),
            paid@ == shares(entries@, out as int, total as int).subrange(0, i as int),
            forall|j: int| 0 <= j < i ==> out * #[trigger] entries@[j].1 <= MAX_BALANCE,
        decreases entries@.len() - i,
    {
        let (who, amount) = entries[i];
        let product = match out.checked_mul(amount) {
            Some(v) => v,
            None => return Err(Error::Overflow),
        };
        let part = if total == 0 {
            0
        } else {
            product / total
        };
        paid.push((who, part));
        i = i + 1;
        assert(paid@ =~= shares(entries@, out as int, total as int).subrange(0, i as int));
    }
    assert(paid@ =~= shares(entries@, out as int, total as int));
    Ok(paid)
}

/// Sum of the shares of a list's entries.
pub open spec fn shares_total(s: Seq<(AccountId, Balance)>, out: int, total: int) -> int
    decreases s.len(),
{
    if s.len() == 0 {
        0
    } else {
        shares_total(s.drop_last(), out, total) + share(out, s.last().1 as int, total)
    }
}

/// Scaled bounds of the sum of shares, by induction on the list.
proof fn lemma_shares_total_scaled(s: Seq<(AccountId, Balance)>, out: int, total: int)
    requires
        out >= 0,
        total > 0,
    ensures
        shares_total(s, out, total) * total <= out * total_of(s),
        s.len() > 0 ==> out * total_of(s) < (shares_total(s, out, total) + s.len()) * total,
    decreases s.len(),
{
    if s.len() > 0 {
        let t = s.drop_last();
        lemma_shares_total_scaled(t, out, total);
        let a = s.last().1 as int;
        assert(out * a >= 0) by (nonlinear_arith)
            requires
                out >= 0,
                a >= 0,
        ;
        lemma_floor_bounds(out * a, total);
        let q = share(out, a, total);
        let st = shares_total(t, out, total);
        let tt = total_of(t);
        assert(shares_total(s, out, total) == st + q);
        assert(total_of(s) == tt + a);
        assert((st + q) * total <= out * (tt + a)) by (nonlinear_arith)
            requires
                st * total <= out * tt,
                q * total <= out * a,
        ;
        if t.len() == 0 {
            assert(out * (tt + a) < (st + q + t.len() + 1) * total) by (nonlinear_arith)
                requires
                    tt == 0,
                    st == 0,
                    t.len() == 0,
                    out * a < (q + 1) * total,
            ;
        } else {
            assert(out * (tt + a) < (st + q + t.len() + 1) * total) by (nonlinear_arith)
                requires
                    out * tt < (st + t.len()) * total,
                    out * a < (q + 1) * total,
            ;
        }
    }
}

/// The shares of one settlement side add up to what that side is owed, less
/// at most one unit per participant lost to rounding.
pub proof fn lemma_payouts_sum(s: Seq<(AccountId, Balance)>, out: int)
    requires
        out >= 0,
        total_of(s) > 0,
    ensures
        shares_total(s, out, total_of(s)) <= out,
        shares_total(s, out, total_of(s)) > out - s.len(),
{
    let total = total_of(s);
    if s.len() == 0 {
        assert(total_of(s) == 0);
    }
    lemma_shares_total_scaled(s, out, total);
    let st = shares_total(s, out, total);
    assert(st <= out) by (nonlinear_arith)
        requires
            st * total <= out * total,
            total > 0,
    ;
    assert(st > out - s.len()) by (nonlinear_arith)
        requires
            out * total < (st + s.len()) * total,
            total > 0,
    ;
}

/// Two entries of one side with equal amounts receive equal payouts,
/// wherever they stand in the list: the price is the same for the first
/// and the last in the batch.
pub proof fn lemma_equal_amounts_equal_payouts(s: Seq<(AccountId, Balance)>, out: int, i: int, j: int)
    requires
        0 <= i < s.len(),
        0 <= j < s.len(),
        s[i].1 == s[j].1,
    ensures
        shares(s, out, total_of(s))[i].1 == shares(s, out, total_of(s))[j].1,
{
}

} // verus!
