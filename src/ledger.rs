use vstd::prelude::*;
use crate::types::{Error, AccountId, AssetId, Balance, MAX_BALANCE};

verus! {

/// The amount recorded for `who`, the last entry for it winning; zero where
/// it has none.
pub open spec fn lookup(s: Seq<(AccountId, Balance)>, who: AccountId) -> Balance
    decreases s.len(),
{
    if s.len() == 0 {
        0
    } else if s.last().0 == who {
        s.last().1
    } else {
        lookup(s.drop_last(), who)
    }
}

/// No account has two entries.
pub open spec fn keys_distinct(s: Seq<(AccountId, Balance)>) -> bool {
    forall|i: int, j: int| 0 <= i < j < s.len() ==> s[i].0 != s[j].0
}

proof fn lemma_lookup_absent(s: Seq<(AccountId, Balance)>, who: AccountId)
    requires
        forall|j: int| 0 <= j < s.len() ==> s[j].0 != who,
    ensures
        lookup(s, who) == 0,
    decreases s.len(),
{
    if s.len() > 0 {
        lemma_lookup_absent(s.drop_last(), who);
    }
}

proof fn lemma_lookup_at(s: Seq<(AccountId, Balance)>, i: int)
    requires
        keys_distinct(s),
        0 <= i < s.len(),
    ensures
        lookup(s, s[i].0) == s[i].1,
    decreases s.len(),
{
    if i < s.len() - 1 {
        lemma_lookup_at(s.drop_last(), i);
    }
}

proof fn lemma_lookup_update(s: Seq<(AccountId, Balance)>, i: int, v: Balance, other: AccountId)
    requires
        keys_distinct(s),
        0 <= i < s.len(),
        other != s[i].0,
    ensures
        lookup(s.update(i, (s[i].0, v)), other) == lookup(s, other),
    decreases s.len(),
{
    let t = s.update(i, (s[i].0, v));
    if i < s.len() - 1 {
        assert(t.drop_last() == s.drop_last().update(i, (s[i].0, v)));
        lemma_lookup_update(s.drop_last(), i, v, other);
    } else {
        assert(t.drop_last() == s.drop_last());
    }
}

/// The balances of one token, every account's amount, zero by default.
pub struct Balances {
    entries: Vec<(AccountId, Balance)>,
}

/// The outcome of moving `amount` from `from` to `to` in the balances `m`:
/// `short` where `from` holds less, `Overflow` where `to` cannot hold more.
pub open spec fn transfer_result(m: Map<AccountId, Balance>, from: AccountId, to: AccountId, amount: Balance, short: Error) -> Result<Map<AccountId, Balance>, Error> {
    if m[from] < amount {
        Err(short)
    } else if from == to {
        Ok(m)
    } else if m[to] + amount > MAX_BALANCE {
        Err(Error::Overflow)
    } else {
        Ok(m.insert(from, (m[from] - amount) as Balance).insert(to, (m[to] + amount) as Balance))
    }
}

/// The outcome of paying each (account, amount) of `s` in turn from `from`.
pub open spec fn pay_all(m: Map<AccountId, Balance>, from: AccountId, s: Seq<(AccountId, Balance)>, short: Error) -> Result<Map<AccountId, Balance>, Error>
    decreases s.len(),
{
    if s.len() == 0 {
        Ok(m)
    } else {
        match pay_all(m, from, s.drop_last(), short) {
            Err(e) => Err(e),
            Ok(m1) => transfer_result(m1, from, s.last().0, s.last().1, short),
        }
    }
}

/// Once a payment of a list fails, paying a longer prefix fails the same way.
pub proof fn lemma_pay_all_stops(m: Map<AccountId, Balance>, from: AccountId, s: Seq<(AccountId, Balance)>, short: Error, n: int)
    requires
        0 <= n <= s.len(),
        pay_all(m, from, s.subrange(0, n), short) is Err,
    ensures
        pay_all(m, from, s, short) == pay_all(m, from, s.subrange(0, n), short),
    decreases s.len() - n,
{
    if n < s.len() {
        assert(s.subrange(0, n + 1).drop_last() == s.subrange(0, n));
        lemma_pay_all_stops(m, from, s, short, n + 1);
    } else {
        assert(s.subrange(0, n) == s);
    }
}

/// Paying a list leaves an account untouched that is neither the payer nor
/// a payee.
pub proof fn lemma_pay_all_untouched(m: Map<AccountId, Balance>, from: AccountId, s: Seq<(AccountId, Balance)>, short: Error, k: AccountId)
    requires
        pay_all(m, from, s, short) is Ok,
        k != from,
        forall|j: int| 0 <= j < s.len() ==> s[j].0 != k,
    ensures
        pay_all(m, from, s, short)->Ok_0[k] == m[k],
    decreases s.len(),
{
    if s.len() > 0 {
        lemma_pay_all_untouched(m, from, s.drop_last(), short, k);
    }
}

/// Paying a list of distinct payees credits a payee other than the payer
/// with exactly its amount.
pub proof fn lemma_pay_all_credits(m: Map<AccountId, Balance>, from: AccountId, s: Seq<(AccountId, Balance)>, short: Error, i: int)
    requires
        pay_all(m, from, s, short) is Ok,
        keys_distinct(s),
        0 <= i < s.len(),
        s[i].0 != from,
    ensures
        pay_all(m, from, s, short)->Ok_0[s[i].0] == m[s[i].0] + s[i].1,
    decreases s.len(),
{
    let t = s.drop_last();
    if i < s.len() - 1 {
        lemma_pay_all_credits(m, from, t, short, i);
    } else {
        assert forall|j: int| 0 <= j < t.len() implies t[j].0 != s[i].0 by {
            assert(s[j].0 != s[i].0);
        }
        lemma_pay_all_untouched(m, from, t, short, s[i].0);
    }
}

impl Balances {
    /// The (account, amount) entries, in the order the accounts first got one.
    pub closed spec fn entries(&self) -> Seq<(AccountId, Balance)> {
        self.entries@
    }

    pub open spec fn view(&self) -> Map<AccountId, Balance> {
        Map::new(|k: AccountId| true, |k: AccountId| lookup(self.entries(), k))
    }

    pub open spec fn wf(&self) -> bool {
        keys_distinct(self.entries())
    }

    /// The entries, in order.
    pub fn entries_vec(&self) -> (r: &Vec<(AccountId, Balance)>)
        ensures
            r@ == self.entries(),
    {
        &self.entries
    }

    /// Balances in which every account holds nothing.
    pub fn new() -> (r: Balances)
        ensures
            r.wf(),
            r.entries().len() == 0,
            forall|k: AccountId| #[trigger] r@[k] == 0,
            r@.dom() == Set::<AccountId>::full(),
    {
        let r = Balances { entries: Vec::new() };
        proof {
            assert forall|k: AccountId| #[trigger] r@[k] == 0 by {
                lemma_lookup_absent(r.entries@, k);
            }
            assert(r@.dom() =~= Set::<AccountId>::full());
        }
        r
    }

    /// Every account of the balances has an amount.
    pub proof fn lemma_total(&self)
        ensures
            self@.dom() == Set::<AccountId>::full(),
    {
        assert(self@.dom() =~= Set::<AccountId>::full());
    }

    fn position(&self, who: AccountId) -> (r: Option<usize>)
        requires
            self.wf(),
        ensures
            r matches Some(i) ==> i < self.entries@.len() && self.entries@[i as int].0 == who,
            r is None ==> forall|j: int| 0 <= j < self.entries@.len() ==> self.entries@[j].0 != who,
    {
        let mut i: usize = 0;
        while i < self.entries.len()
            invariant
                0 <= i <= self.entries@.len(),
                forall|j: int| 0 <= j < i ==> self.entries@[j].0 != who,
            decreases self.entries@.len() - i,
        {
            if self.entries[i].0 == who {
                return Some(i);
            }
            i = i + 1;
        }
        None
    }

    /// What `who` holds.
    pub fn balance(&self, who: AccountId) -> (r: Balance)
        requires
            self.wf(),
        ensures
            r == self@[who],
    {
        match self.position(who) {
            Some(i) => {
                proof {
                    lemma_lookup_at(self.entries@, i as int);
                }
                self.entries[i].1
            },
            None => {
                proof {
                    lemma_lookup_absent(self.entries@, who);
                }
                0
            },
        }
    }

    /// Records `amount` as what `who` holds.
    pub fn set_balance(&mut self, who: AccountId, amount: Balance)
        requires
            old(self).wf(),
        ensures
            final(self).wf(),
            final(self)@ == old(self)@.insert(who, amount),
    {
        let ghost before = self.entries@;
        match self.position(who) {
            Some(i) => {
                self.entries.set(i, (who, amount));
                proof {
                    assert(self.entries@ == before.update(i as int, (before[i as int].0, amount)));
                    assert forall|k: AccountId| #[trigger] lookup(self.entries@, k) == (if k == who { amount } else { lookup(before, k) }) by {
                        if k == who {
                            lemma_lookup_at(self.entries@, i as int);
                        } else {
                            lemma_lookup_update(before, i as int, amount, k);
                        }
                    }
                }
            },
            None => {
                self.entries.push((who, amount));
                proof {
                    assert(self.entries@.drop_last() == before);
                }
            },
        }
        proof {
            assert(self@ =~= old(self)@.insert(who, amount));
        }
    }

    /// Moves `amount` from `from` to `to`; fails with `short` where `from`
    /// holds less, and with `Overflow` where `to` cannot hold more.
    pub fn transfer(&mut self, from: AccountId, to: AccountId, amount: Balance, short: Error) -> (r: Result<(), Error>)
        requires
            old(self).wf(),
        ensures
            final(self).wf(),
            match transfer_result(old(self)@, from, to, amount, short) {
                Ok(m) => r is Ok && final(self)@ == m,
                Err(e) => r == Err::<(), Error>(e) && final(self)@ == old(self)@,
            },
    {
        let have = self.balance(from);
        if have < amount {
            return Err(short);
        }
        if from == to {
            return Ok(());
        }
        let held = self.balance(to);
        if held > MAX_BALANCE - amount {
            return Err(Error::Overflow);
        }
        self.set_balance(from, have - amount);
        self.set_balance(to, held + amount);
        Ok(())
    }

    /// Pays each (account, amount) of `list` in turn from `from`; on failure
    /// the balances are left part-way.
    pub fn pay_all(&mut self, from: AccountId, list: &Vec<(AccountId, Balance)>, short: Error) -> (r: Result<(), Error>)
        requires
            old(self).wf(),
        ensures
            final(self).wf(),
            match pay_all(old(self)@, from, list@, short) {
                Ok(m) => r is Ok && final(self)@ == m,
                Err(e) => r == Err::<(), Error>(e),
            },
    {
        let ghost start = self@;
        let mut i: usize = 0;
        while i < list.len()
            invariant
                self.wf(),
                start == old(self)@,
                0 <= i <= list@.len(),
                pay_all(start, from, list@.subrange(0, i as int), short) == Ok::<Map<AccountId, Balance>, Error>(self@),
            decreases list@.len() - i,
        {
            let (who, amount) = list[i];
            assert(list@.subrange(0, i as int + 1).drop_last() == list@.subrange(0, i as int));
            assert(list@.subrange(0, i as int + 1).last() == (who, amount));
            let ghost cur = self@;
            assert(pay_all(start, from, list@.subrange(0, i as int + 1), short) == transfer_result(cur, from, who, amount, short));
            match self.transfer(from, who, amount, short) {
                Ok(()) => {},
                Err(e) => {
                    proof {
                        assert(transfer_result(cur, from, who, amount, short) == Err::<Map<AccountId, Balance>, Error>(e));
                        lemma_pay_all_stops(start, from, list@, short, i as int + 1);
                        assert(pay_all(start, from, list@, short) == Err::<Map<AccountId, Balance>, Error>(e));
                    }
                    return Err(e);
                },
            }
            i = i + 1;
        }
        assert(list@.subrange(0, i as int) == list@);
        Ok(())
    }

    /// A copy of the balances.
    pub fn copy(&self) -> (r: Balances)
        requires
            self.wf(),
        ensures
            r.wf(),
            r.entries() == self.entries(),
            r@ == self@,
    {
        let mut entries: Vec<(AccountId, Balance)> = Vec::new();
        let mut i: usize = 0;
        while i < self.entries.len()
            invariant
                0 <= i <= self.entries@.len(),
                entries@ == self.entries@.subrange(0, i as int),
            decreases self.entries@.len() - i,
        {
            entries.push(self.entries[i]);
            i = i + 1;
            assert(entries@ =~= self.entries@.subrange(0, i as int));
        }
        assert(entries@ =~= self.entries@);
        Balances { entries }
    }
}

/// One token of the registry: its holders and its issuance.
pub struct AssetBook {
    id: AssetId,
    holders: Balances,
    issuance: Balance,
}

/// The fungible tokens: traded assets and liquidity tokens.
pub struct Assets {
    books: Vec<AssetBook>,
}

/// What a withdrawal of an amount from an account would lead to.
#[derive(Clone, Copy, Debug, PartialEq, Eq, Structural)]
pub enum WithdrawConsequence {
    Success,
    UnknownAsset,
    BalanceLow,
}

impl Assets {
    pub closed spec fn wf(&self) -> bool {
        &&& forall|i: int, j: int| 0 <= i < j < self.books@.len() ==> self.books@[i].id != self.books@[j].id
        &&& forall|i: int| 0 <= i < self.books@.len() ==> (#[trigger] self.books@[i]).holders.wf()
    }

    /// The token `id` is registered.
    pub closed spec fn has(&self, id: AssetId) -> bool {
        exists|i: int| 0 <= i < self.books@.len() && self.books@[i].id == id
    }

    closed spec fn index(&self, id: AssetId) -> int {
        choose|i: int| 0 <= i < self.books@.len() && self.books@[i].id == id
    }

    /// The holders' balances of `id`; all zero where it is not registered.
    pub closed spec fn holders(&self, id: AssetId) -> Map<AccountId, Balance> {
        if self.has(id) {
            self.books@[self.index(id)].holders@
        } else {
            Map::new(|k: AccountId| true, |k: AccountId| 0)
        }
    }

    /// What `who` holds of `id`.
    pub open spec fn balance_of(&self, id: AssetId, who: AccountId) -> Balance {
        self.holders(id)[who]
    }

    /// The issuance of `id`; zero where it is not registered.
    pub closed spec fn issuance(&self, id: AssetId) -> Balance {
        if self.has(id) {
            self.books@[self.index(id)].issuance
        } else {
            0
        }
    }

    /// `other` is this registry but for the holders and issuance of `id`;
    /// its holders of `id` are `m`.
    pub open spec fn with_holders(&self, other: &Assets, id: AssetId, m: Map<AccountId, Balance>) -> bool {
        &&& forall|t: AssetId| #[trigger] other.has(t) == self.has(t)
        &&& other.holders(id) == m
        &&& forall|t: AssetId| t != id ==> #[trigger] other.holders(t) == self.holders(t)
            && other.issuance(t) == self.issuance(t)
    }

    /// `other` is this registry but for the holders and issuance of `a` and
    /// of `b`; its holders of them are `ma` and `mb`, and `a` keeps its
    /// issuance.
    pub open spec fn with_two_holders(&self, other: &Assets, a: AssetId, ma: Map<AccountId, Balance>, b: AssetId, mb: Map<AccountId, Balance>) -> bool {
        &&& forall|t: AssetId| #[trigger] other.has(t) == self.has(t)
        &&& other.holders(a) == ma
        &&& other.holders(b) == mb
        &&& other.issuance(a) == self.issuance(a)
        &&& forall|t: AssetId| t != a && t != b ==> #[trigger] other.holders(t) == self.holders(t)
            && other.issuance(t) == self.issuance(t)
    }

    /// A token with a positive issuance is registered, and every account has
    /// an amount of every token.
    pub proof fn lemma_registry_facts(&self, id: AssetId)
        requires
            self.wf(),
        ensures
            self.issuance(id) != 0 ==> self.has(id),
            self.holders(id).dom() == Set::<AccountId>::full(),
    {
        if self.has(id) {
            self.books@[self.index(id)].holders.lemma_total();
        } else {
            assert(self.holders(id).dom() =~= Set::<AccountId>::full());
        }
    }

    /// An empty registry.
    pub fn new() -> (r: Assets)
        ensures
            r.wf(),
            forall|t: AssetId| !(#[trigger] r.has(t)),
    {
        Assets { books: Vec::new() }
    }

    fn find(&self, id: AssetId) -> (r: Option<usize>)
        requires
            self.wf(),
        ensures
            r matches Some(i) ==> i < self.books@.len() && self.books@[i as int].id == id && self.has(id)
                && self.index(id) == i,
            r is None <==> !self.has(id),
    {
        let mut i: usize = 0;
        while i < self.books.len()
            invariant
                self.wf(),
                0 <= i <= self.books@.len(),
                forall|j: int| 0 <= j < i ==> self.books@[j].id != id,
            decreases self.books@.len() - i,
        {
            if self.books[i].id == id {
                proof {
                    assert(self.has(id));
                    let c = self.index(id);
                    assert(self.books@[c].id == id);
                    let ii = i as int;
                    if c < ii {
                        assert(self.books@[c].id != self.books@[ii].id);
                    } else if ii < c {
                        assert(self.books@[ii].id != self.books@[c].id);
                    }
                }
                return Some(i);
            }
            i = i + 1;
        }
        None
    }

    /// Registers the token `id` with no holders; fails with
    /// `TokenIdAlreadyInUse` where it is already registered.
    pub fn create(&mut self, id: AssetId) -> (r: Result<(), Error>)
        requires
            old(self).wf(),
        ensures
            final(self).wf(),
            r is Ok <==> !old(self).has(id),
            r is Err ==> r == Err::<(), Error>(Error::TokenIdAlreadyInUse) && *final(self) == *old(self),
            r is Ok ==> final(self).has(id) && final(self).issuance(id) == 0
                && forall|k: AccountId| #[trigger] final(self).balance_of(id, k) == 0,
            r is Ok ==> forall|t: AssetId| t != id ==> (#[trigger] final(self).has(t) == old(self).has(t)
                && final(self).issuance(t) == old(self).issuance(t)
                && final(self).holders(t) == old(self).holders(t)),
    {
        if self.find(id).is_some() {
            return Err(Error::TokenIdAlreadyInUse);
        }
        let holders = Balances::new();
        let ghost before = self.books@;
        self.books.push(AssetBook { id, holders, issuance: 0 });
        proof {
            let n = before.len() as int;
            assert(self.books@[n].id == id);
            assert(self.has(id));
            assert forall|t: AssetId| #[trigger] self.has(t) == (t == id || old(self).has(t)) by {
                if old(self).has(t) {
                    let c = old(self).index(t);
                    assert(self.books@[c] == before[c]);
                }
                if self.has(t) && t != id {
                    let c = self.index(t);
                    assert(c < n);
                    assert(before[c].id == t);
                }
            }
            assert(self.index(id) == n);
            assert forall|t: AssetId| t != id && old(self).has(t) implies self.index(t) == old(self).index(t) by {
                let c = old(self).index(t);
                assert(self.books@[c].id == t);
            }
            assert forall|t: AssetId| t != id implies (#[trigger] self.has(t) == old(self).has(t)
                && self.issuance(t) == old(self).issuance(t)
                && self.holders(t) == old(self).holders(t)) by {
                if old(self).has(t) {
                    assert(self.books@[old(self).index(t)] == before[old(self).index(t)]);
                }
            }
        }
        Ok(())
    }

    /// What `who` holds of `id`.
    pub fn balance(&self, id: AssetId, who: AccountId) -> (r: Balance)
        requires
            self.wf(),
        ensures
            r == self.balance_of(id, who),
    {
        match self.find(id) {
            Some(i) => self.books[i].holders.balance(who),
            None => 0,
        }
    }

    /// The issuance of `id`; zero where it is not registered.
    pub fn total_issuance(&self, id: AssetId) -> (r: Balance)
        requires
            self.wf(),
        ensures
            r == self.issuance(id),
    {
        match self.find(id) {
            Some(i) => self.books[i].issuance,
            None => 0,
        }
    }

    /// Whether `who` could give up `amount` of `id`.
    pub fn can_withdraw(&self, id: AssetId, who: AccountId, amount: Balance) -> (r: WithdrawConsequence)
        requires
            self.wf(),
        ensures
            r == (if !self.has(id) {
                WithdrawConsequence::UnknownAsset
            } else if self.balance_of(id, who) < amount {
                WithdrawConsequence::BalanceLow
            } else {
                WithdrawConsequence::Success
            }),
    {
        match self.find(id) {
            Some(i) => if self.books[i].holders.balance(who) < amount {
                WithdrawConsequence::BalanceLow
            } else {
                WithdrawConsequence::Success
            },
            None => WithdrawConsequence::UnknownAsset,
        }
    }

    /// Replaces the book at `i` by one with the same id.
    fn put_book(&mut self, i: usize, book: AssetBook)
        requires
            old(self).wf(),
            i < old(self).books@.len(),
            book.id == old(self).books@[i as int].id,
            book.holders.wf(),
        ensures
            final(self).wf(),
            final(self).has(book.id) && final(self).holders(book.id) == book.holders@ && final(self).issuance(book.id) == book.issuance,
            forall|t: AssetId| #[trigger] final(self).has(t) == old(self).has(t),
            forall|t: AssetId| t != book.id ==> #[trigger] final(self).holders(t) == old(self).holders(t)
                && final(self).issuance(t) == old(self).issuance(t),
    {
        let ghost before = self.books@;
        let id = book.id;
        self.books.set(i, book);
        proof {
            assert(self.books@ == before.update(i as int, book));
            assert forall|t: AssetId| #[trigger] self.has(t) == old(self).has(t) by {
                if old(self).has(t) {
                    let c = old(self).index(t);
                    assert(self.books@[c].id == t);
                }
                if self.has(t) {
                    let c = self.index(t);
                    assert(before[c].id == t);
                }
            }
            assert(self.books@[i as int].id == id);
            assert(self.index(id) == i);
            assert forall|t: AssetId| t != id && old(self).has(t) implies self.index(t) == old(self).index(t) by {
                let c = old(self).index(t);
                assert(self.books@[c].id == t);
            }
        }
    }

    /// Adds `amount` of `id` to `who` and to the issuance; `AssetNotFound`
    /// where `id` is not registered, `Overflow` where an amount cannot grow.
    pub fn mint_into(&mut self, id: AssetId, who: AccountId, amount: Balance) -> (r: Result<(), Error>)
        requires
            old(self).wf(),
        ensures
            final(self).wf(),
            r is Ok <==> old(self).has(id) && old(self).balance_of(id, who) + amount <= MAX_BALANCE
                && old(self).issuance(id) + amount <= MAX_BALANCE,
            r is Err ==> *final(self) == *old(self),
            r is Err ==> r == Err::<(), Error>(if !old(self).has(id) { Error::AssetNotFound } else { Error::Overflow }),
            r is Ok ==> final(self).issuance(id) == old(self).issuance(id) + amount
                && old(self).with_holders(&*final(self), id,
                    old(self).holders(id).insert(who, (old(self).balance_of(id, who) + amount) as Balance)),
    {
        let i = match self.find(id) {
            Some(i) => i,
            None => return Err(Error::AssetNotFound),
        };
        let held = self.books[i].holders.balance(who);
        let issued = self.books[i].issuance;
        if held > MAX_BALANCE - amount || issued > MAX_BALANCE - amount {
            return Err(Error::Overflow);
        }
        let mut holders = self.books[i].holders.copy();
        holders.set_balance(who, held + amount);
        self.put_book(i, AssetBook { id, holders, issuance: issued + amount });
        Ok(())
    }

    /// Moves `amount` of `id` from `from` to `to`; `AssetNotFound` where `id`
    /// is not registered, then as `Balances::transfer` with `NotEnoughTokens`.
    pub fn transfer(&mut self, id: AssetId, from: AccountId, to: AccountId, amount: Balance) -> (r: Result<(), Error>)
        requires
            old(self).wf(),
        ensures
            final(self).wf(),
            !old(self).has(id) ==> r == Err::<(), Error>(Error::AssetNotFound) && *final(self) == *old(self),
            old(self).has(id) ==> match transfer_result(old(self).holders(id), from, to, amount, Error::NotEnoughTokens) {
                Ok(m) => r is Ok && old(self).with_holders(&*final(self), id, m)
                    && final(self).issuance(id) == old(self).issuance(id),
                Err(e) => r == Err::<(), Error>(e) && *final(self) == *old(self),
            },
    {
        let i = match self.find(id) {
            Some(i) => i,
            None => return Err(Error::AssetNotFound),
        };
        let mut holders = self.books[i].holders.copy();
        let issued = self.books[i].issuance;
        match holders.transfer(from, to, amount, Error::NotEnoughTokens) {
            Ok(()) => {
                self.put_book(i, AssetBook { id, holders, issuance: issued });
                Ok(())
            },
            Err(e) => Err(e),
        }
    }

    /// Pays each (account, amount) of `list` in turn from `from`, in the
    /// token `id`; nothing changes on failure.
    pub fn pay_all(&mut self, id: AssetId, from: AccountId, list: &Vec<(AccountId, Balance)>) -> (r: Result<(), Error>)
        requires
            old(self).wf(),
            old(self).has(id),
        ensures
            final(self).wf(),
            match pay_all(old(self).holders(id), from, list@, Error::NotEnoughTokens) {
                Ok(m) => r is Ok && old(self).with_holders(&*final(self), id, m)
                    && final(self).issuance(id) == old(self).issuance(id),
                Err(e) => r == Err::<(), Error>(e) && *final(self) == *old(self),
            },
    {
        let i = match self.find(id) {
            Some(i) => i,
            None => return Err(Error::AssetNotFound),
        };
        let mut holders = self.books[i].holders.copy();
        let issued = self.books[i].issuance;
        match holders.pay_all(from, list, Error::NotEnoughTokens) {
            Ok(()) => {
                self.put_book(i, AssetBook { id, holders, issuance: issued });
                Ok(())
            },
            Err(e) => Err(e),
        }
    }

    /// A copy of the registry.
    pub fn copy(&self) -> (r: Assets)
        requires
            self.wf(),
        ensures
            r.wf(),
            forall|t: AssetId| #[trigger] r.has(t) == self.has(t),
            forall|t: AssetId| #[trigger] r.holders(t) == self.holders(t),
            forall|t: AssetId| #[trigger] r.issuance(t) == self.issuance(t),
    {
        let mut books: Vec<AssetBook> = Vec::new();
        let mut i: usize = 0;
        while i < self.books.len()
            invariant
                self.wf(),
                0 <= i <= self.books@.len(),
                books@.len() == i,
                forall|j: int| 0 <= j < i ==> (#[trigger] books@[j]).id == self.books@[j].id
                    && books@[j].holders@ == self.books@[j].holders@
                    && books@[j].holders.wf()
                    && books@[j].issuance == self.books@[j].issuance,
            decreases self.books@.len() - i,
        {
            let b = &self.books[i];
            books.push(AssetBook { id: b.id, holders: b.holders.copy(), issuance: b.issuance });
            i = i + 1;
        }
        let r = Assets { books };
        proof {
            assert forall|t: AssetId| #[trigger] r.has(t) == self.has(t) by {
                if self.has(t) {
                    let c = self.index(t);
                    assert(r.books@[c].id == t);
                }
                if r.has(t) {
                    let c = r.index(t);
                    assert(self.books@[c].id == t);
                }
            }
            assert forall|t: AssetId| r.has(t) implies r.index(t) == self.index(t) by {
                let c = self.index(t);
                assert(r.books@[c].id == t);
            }
        }
        r
    }
}

} // verus!
