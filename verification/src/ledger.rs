//! Sparse per-owner, per-asset balance ledger with credit/debit primitives.
//!
//! An entry exists only while its amount is strictly positive; absence means
//! a balance of zero. Keys (owner, asset) are unique, so the entry sequence
//! denotes a finite map.
use crate::{AssetId, Balance, ExchangeError, Identity};
use vstd::prelude::*;

verus! {

/// One ledger cell: `owner` holds `amount` units of `asset`.
#[derive(Clone, Copy, PartialEq, Eq, Structural, Debug)]
pub struct BalanceEntry {
    pub owner: Identity,
    pub asset: AssetId,
    pub amount: u128,
}

/// The balance ledger: a sparse owner/asset map held as a key-unique
/// sequence of strictly positive entries.
pub struct BalanceLedger {
    pub entries: Vec<BalanceEntry>,
}

impl View for BalanceLedger {
    type V = Seq<BalanceEntry>;

    open spec fn view(&self) -> Seq<BalanceEntry> {
        self.entries@
    }
}

pub open spec fn entry_matches(e: BalanceEntry, owner: Identity, asset: AssetId) -> bool {
    e.owner == owner && e.asset == asset
}

pub open spec fn same_key(x: BalanceEntry, y: BalanceEntry) -> bool {
    x.owner == y.owner && x.asset == y.asset
}

/// Balance recorded for (owner, asset): the matching entry's amount, or zero.
pub open spec fn bal_of(s: Seq<BalanceEntry>, owner: Identity, asset: AssetId) -> u128
    decreases s.len(),
{
    if s.len() == 0 {
        0
    } else if entry_matches(s[0], owner, asset) {
        s[0].amount
    } else {
        bal_of(s.drop_first(), owner, asset)
    }
}

/// Total of all owners' balances in one asset.
pub open spec fn asset_sum(s: Seq<BalanceEntry>, asset: AssetId) -> int
    decreases s.len(),
{
    if s.len() == 0 {
        0
    } else {
        (if s[0].asset == asset {
            s[0].amount as int
        } else {
            0
        }) + asset_sum(s.drop_first(), asset)
    }
}

/// The positions belonging to one owner, in entry order.
pub open spec fn owner_entries(s: Seq<BalanceEntry>, owner: Identity) -> Seq<Balance>
    decreases s.len(),
{
    if s.len() == 0 {
        Seq::empty()
    } else if s[0].owner == owner {
        seq![Balance { asset: s[0].asset, amount: s[0].amount }] + owner_entries(
            s.drop_first(),
            owner,
        )
    } else {
        owner_entries(s.drop_first(), owner)
    }
}

pub open spec fn keys_unique(s: Seq<BalanceEntry>) -> bool {
    forall|i: int, j: int| 0 <= i < j < s.len() ==> !same_key(#[trigger] s[i], #[trigger] s[j])
}

pub open spec fn entries_positive(s: Seq<BalanceEntry>) -> bool {
    forall|i: int| 0 <= i < s.len() ==> (#[trigger] s[i]).amount > 0
}

pub open spec fn ledger_wf(s: Seq<BalanceEntry>) -> bool {
    keys_unique(s) && entries_positive(s)
}

/// If no entry carries the key, the balance reads zero.
pub proof fn lemma_bal_of_absent(s: Seq<BalanceEntry>, owner: Identity, asset: AssetId)
    requires
        forall|j: int| 0 <= j < s.len() ==> !entry_matches(#[trigger] s[j], owner, asset),
    ensures
        bal_of(s, owner, asset) == 0,
    decreases s.len(),
{
    if s.len() > 0 {
        assert forall|j: int| 0 <= j < s.drop_first().len() implies !entry_matches(
            #[trigger] s.drop_first()[j],
            owner,
            asset,
        ) by {
            assert(s.drop_first()[j] == s[j + 1]);
        }
        lemma_bal_of_absent(s.drop_first(), owner, asset);
    }
}

/// With unique keys, the balance reads the amount of the matching entry.
pub proof fn lemma_bal_of_at(s: Seq<BalanceEntry>, i: int, owner: Identity, asset: AssetId)
    requires
        keys_unique(s),
        0 <= i < s.len(),
        entry_matches(s[i], owner, asset),
    ensures
        bal_of(s, owner, asset) == s[i].amount,
    decreases i,
{
    if i > 0 {
        lemma_keys_unique_drop(s);
        assert(s.drop_first()[i - 1] == s[i]);
        lemma_bal_of_at(s.drop_first(), i - 1, owner, asset);
    }
}

pub proof fn lemma_keys_unique_drop(s: Seq<BalanceEntry>)
    requires
        keys_unique(s),
        s.len() > 0,
    ensures
        keys_unique(s.drop_first()),
{
    assert forall|i: int, j: int| 0 <= i < j < s.drop_first().len() implies !same_key(
        #[trigger] s.drop_first()[i],
        #[trigger] s.drop_first()[j],
    ) by {
        assert(s.drop_first()[i] == s[i + 1]);
        assert(s.drop_first()[j] == s[j + 1]);
    }
}

/// Replacing entry `i` by one with the same key rewrites exactly that
/// key's balance.
pub proof fn lemma_bal_of_update(
    s: Seq<BalanceEntry>,
    i: int,
    e2: BalanceEntry,
    owner: Identity,
    asset: AssetId,
)
    requires
        keys_unique(s),
        0 <= i < s.len(),
        same_key(e2, s[i]),
    ensures
        bal_of(s.update(i, e2), owner, asset) == if entry_matches(s[i], owner, asset) {
            e2.amount
        } else {
            bal_of(s, owner, asset)
        },
    decreases i,
{
    let s2 = s.update(i, e2);
    if i == 0 {
        if !entry_matches(s[0], owner, asset) {
            assert(s2.drop_first() =~= s.drop_first());
        }
    } else {
        lemma_keys_unique_drop(s);
        assert(s2.drop_first() =~= s.drop_first().update(i - 1, e2));
        assert(s.drop_first()[i - 1] == s[i]);
        lemma_bal_of_update(s.drop_first(), i - 1, e2, owner, asset);
    }
}

pub proof fn lemma_asset_sum_update(s: Seq<BalanceEntry>, i: int, e2: BalanceEntry, a2: AssetId)
    requires
        0 <= i < s.len(),
        e2.asset == s[i].asset,
    ensures
        asset_sum(s.update(i, e2), a2) == asset_sum(s, a2) + (if s[i].asset == a2 {
            e2.amount - s[i].amount
        } else {
            0
        }),
    decreases i,
{
    let s2 = s.update(i, e2);
    if i == 0 {
        assert(s2.drop_first() =~= s.drop_first());
    } else {
        assert(s2.drop_first() =~= s.drop_first().update(i - 1, e2));
        assert(s.drop_first()[i - 1] == s[i]);
        lemma_asset_sum_update(s.drop_first(), i - 1, e2, a2);
    }
}

/// Appending an entry whose key is absent rewrites exactly that key's
/// balance.
pub proof fn lemma_bal_of_push(
    s: Seq<BalanceEntry>,
    e: BalanceEntry,
    owner: Identity,
    asset: AssetId,
)
    requires
        forall|j: int| 0 <= j < s.len() ==> !entry_matches(#[trigger] s[j], e.owner, e.asset),
    ensures
        bal_of(s.push(e), owner, asset) == if entry_matches(e, owner, asset) {
            e.amount
        } else {
            bal_of(s, owner, asset)
        },
    decreases s.len(),
{
    if s.len() == 0 {
        assert(s.push(e)[0] == e);
        assert(s.push(e).drop_first() =~= s);
    } else {
        assert(s.push(e)[0] == s[0]);
        assert(s.push(e).drop_first() =~= s.drop_first().push(e));
        assert forall|j: int| 0 <= j < s.drop_first().len() implies !entry_matches(
            #[trigger] s.drop_first()[j],
            e.owner,
            e.asset,
        ) by {
            assert(s.drop_first()[j] == s[j + 1]);
        }
        lemma_bal_of_push(s.drop_first(), e, owner, asset);
    }
}

pub proof fn lemma_asset_sum_push(s: Seq<BalanceEntry>, e: BalanceEntry, a2: AssetId)
    ensures
        asset_sum(s.push(e), a2) == asset_sum(s, a2) + (if e.asset == a2 {
            e.amount as int
        } else {
            0
        }),
    decreases s.len(),
{
    if s.len() == 0 {
        assert(s.push(e)[0] == e);
        assert(s.push(e).drop_first() =~= s);
    } else {
        assert(s.push(e)[0] == s[0]);
        assert(s.push(e).drop_first() =~= s.drop_first().push(e));
        lemma_asset_sum_push(s.drop_first(), e, a2);
    }
}

/// Removing entry `i` zeroes exactly that key's balance.
pub proof fn lemma_bal_of_remove(s: Seq<BalanceEntry>, i: int, owner: Identity, asset: AssetId)
    requires
        keys_unique(s),
        0 <= i < s.len(),
    ensures
        bal_of(s.remove(i), owner, asset) == if entry_matches(s[i], owner, asset) {
            0
        } else {
            bal_of(s, owner, asset)
        },
    decreases i,
{
    let s2 = s.remove(i);
    if i == 0 {
        assert(s2 =~= s.drop_first());
        if entry_matches(s[0], owner, asset) {
            assert forall|j: int| 0 <= j < s.drop_first().len() implies !entry_matches(
                #[trigger] s.drop_first()[j],
                owner,
                asset,
            ) by {
                assert(s.drop_first()[j] == s[j + 1]);
                assert(!same_key(s[0], s[j + 1]));
            }
            lemma_bal_of_absent(s.drop_first(), owner, asset);
        }
    } else {
        lemma_keys_unique_drop(s);
        assert(s2.drop_first() =~= s.drop_first().remove(i - 1));
        assert(s.drop_first()[i - 1] == s[i]);
        lemma_bal_of_remove(s.drop_first(), i - 1, owner, asset);
    }
}

pub proof fn lemma_asset_sum_remove(s: Seq<BalanceEntry>, i: int, a2: AssetId)
    requires
        0 <= i < s.len(),
    ensures
        asset_sum(s.remove(i), a2) == asset_sum(s, a2) - (if s[i].asset == a2 {
            s[i].amount as int
        } else {
            0
        }),
    decreases i,
{
    let s2 = s.remove(i);
    if i == 0 {
        assert(s2 =~= s.drop_first());
    } else {
        assert(s2.drop_first() =~= s.drop_first().remove(i - 1));
        assert(s.drop_first()[i - 1] == s[i]);
        lemma_asset_sum_remove(s.drop_first(), i - 1, a2);
    }
}

impl BalanceLedger {
    pub open spec fn wf(&self) -> bool {
        ledger_wf(self@)
    }

    /// An empty ledger: every balance reads zero.
    pub fn empty() -> (r: BalanceLedger)
        ensures
            r.wf(),
            r@ =~= Seq::<BalanceEntry>::empty(),
    {
        BalanceLedger { entries: Vec::new() }
    }

    fn find_idx(&self, owner: Identity, asset: AssetId) -> (r: Option<usize>)
        ensures
            match r {
                Some(i) => i < self@.len() && entry_matches(self@[i as int], owner, asset),
                None => forall|j: int|
                    0 <= j < self@.len() ==> !entry_matches(#[trigger] self@[j], owner, asset),
            },
    {
        let mut i: usize = 0;
        while i < self.entries.len()
            invariant
                i <= self.entries.len(),
                forall|j: int|
                    0 <= j < i ==> !entry_matches(#[trigger] self.entries@[j], owner, asset),
            decreases self.entries.len() - i,
        {
            let e = self.entries[i];
            if e.owner == owner && e.asset == asset {
                return Some(i);
            }
            i = i + 1;
        }
        None
    }

    /// Balance of (owner, asset); zero when no entry exists.
    pub fn balance_of(&self, owner: Identity, asset: AssetId) -> (r: u128)
        requires
            self.wf(),
        ensures
            r == bal_of(self@, owner, asset),
    {
        match self.find_idx(owner, asset) {
            Some(i) => {
                proof {
                    lemma_bal_of_at(self@, i as int, owner, asset);
                }
                self.entries[i].amount
            },
            None => {
                proof {
                    lemma_bal_of_absent(self@, owner, asset);
                }
                0
            },
        }
    }

    /// Adds `amount` to (owner, asset), creating the entry if absent.
    /// Fails only when the entry would exceed the representable range,
    /// and then changes nothing.
    pub fn credit(&mut self, owner: Identity, asset: AssetId, amount: u128) -> (r: Result<
        (),
        ExchangeError,
    >)
        requires
            old(self).wf(),
        ensures
            final(self).wf(),
            r is Ok <==> bal_of(old(self)@, owner, asset) + amount <= u128::MAX,
            r is Err ==> final(self)@ == old(self)@ && r == Err::<(), ExchangeError>(
                ExchangeError::ArithmeticOverflow,
            ),
            forall|o: Identity, a: AssetId|
                #[trigger] bal_of(final(self)@, o, a) == if r is Ok && o == owner && a == asset {
                    (bal_of(old(self)@, owner, asset) + amount) as u128
                } else {
                    bal_of(old(self)@, o, a)
                },
            forall|a: AssetId|
                #[trigger] asset_sum(final(self)@, a) == asset_sum(old(self)@, a) + (
                if r is Ok && a == asset {
                    amount as int
                } else {
                    0
                }),
    {
        if amount == 0 {
            return Ok(());
        }
        let ghost s0 = self@;
        match self.find_idx(owner, asset) {
            Some(i) => {
                let e = self.entries[i];
                proof {
                    lemma_bal_of_at(s0, i as int, owner, asset);
                }
                if amount > u128::MAX - e.amount {
                    return Err(ExchangeError::ArithmeticOverflow);
                }
                let e2 = BalanceEntry { amount: e.amount + amount, ..e };
                self.entries[i] = e2;
                proof {
                    assert forall|o: Identity, a: AssetId|
                        #[trigger] bal_of(self@, o, a) == if o == owner && a == asset {
                            (bal_of(s0, owner, asset) + amount) as u128
                        } else {
                            bal_of(s0, o, a)
                        } by {
                        lemma_bal_of_update(s0, i as int, e2, o, a);
                    }
                    assert forall|a: AssetId|
                        #[trigger] asset_sum(self@, a) == asset_sum(s0, a) + (
                        if a == asset {
                            amount as int
                        } else {
                            0
                        }) by {
                        lemma_asset_sum_update(s0, i as int, e2, a);
                    }
                    assert forall|p: int, q: int| 0 <= p < q < self@.len() implies !same_key(
                        #[trigger] self@[p],
                        #[trigger] self@[q],
                    ) by {
                        assert(same_key(s0[p], self@[p]) && same_key(s0[q], self@[q]));
                    }
                }
                Ok(())
            },
            None => {
                proof {
                    lemma_bal_of_absent(s0, owner, asset);
                }
                let e = BalanceEntry { owner, asset, amount };
                self.entries.push(e);
                proof {
                    assert forall|o: Identity, a: AssetId|
                        #[trigger] bal_of(self@, o, a) == if o == owner && a == asset {
                            (bal_of(s0, owner, asset) + amount) as u128
                        } else {
                            bal_of(s0, o, a)
                        } by {
                        lemma_bal_of_push(s0, e, o, a);
                    }
                    assert forall|a: AssetId|
                        #[trigger] asset_sum(self@, a) == asset_sum(s0, a) + (
                        if a == asset {
                            amount as int
                        } else {
                            0
                        }) by {
                        lemma_asset_sum_push(s0, e, a);
                    }
                    assert forall|p: int, q: int| 0 <= p < q < self@.len() implies !same_key(
                        #[trigger] self@[p],
                        #[trigger] self@[q],
                    ) by {
                        if q < s0.len() {
                        } else {
                            assert(self@[q] == e);
                            assert(!entry_matches(s0[p], e.owner, e.asset));
                        }
                    }
                    assert(entries_positive(self@));
                }
                Ok(())
            },
        }
    }

    /// Subtracts `amount` from (owner, asset), pruning the entry when it
    /// reaches zero. Fails with `InsufficientBalance`, changing nothing,
    /// exactly when the stored balance is below `amount`.
    pub fn debit(&mut self, owner: Identity, asset: AssetId, amount: u128) -> (r: Result<
        (),
        ExchangeError,
    >)
        requires
            old(self).wf(),
        ensures
            final(self).wf(),
            r is Ok <==> bal_of(old(self)@, owner, asset) >= amount,
            r is Err ==> final(self)@ == old(self)@ && r == Err::<(), ExchangeError>(
                ExchangeError::InsufficientBalance,
            ),
            forall|o: Identity, a: AssetId|
                #[trigger] bal_of(final(self)@, o, a) == if r is Ok && o == owner && a == asset {
                    (bal_of(old(self)@, owner, asset) - amount) as u128
                } else {
                    bal_of(old(self)@, o, a)
                },
            forall|a: AssetId|
                #[trigger] asset_sum(final(self)@, a) == asset_sum(old(self)@, a) - (
                if r is Ok && a == asset {
                    amount as int
                } else {
                    0
                }),
    {
        if amount == 0 {
            return Ok(());
        }
        let ghost s0 = self@;
        match self.find_idx(owner, asset) {
            Some(i) => {
                let e = self.entries[i];
                proof {
                    lemma_bal_of_at(s0, i as int, owner, asset);
                }
                if e.amount < amount {
                    return Err(ExchangeError::InsufficientBalance);
                }
                if e.amount == amount {
                    self.entries.remove(i);
                    proof {
                        assert forall|o: Identity, a: AssetId|
                            #[trigger] bal_of(self@, o, a) == if o == owner && a == asset {
                                (bal_of(s0, owner, asset) - amount) as u128
                            } else {
                                bal_of(s0, o, a)
                            } by {
                            lemma_bal_of_remove(s0, i as int, o, a);
                        }
                        assert forall|a: AssetId|
                            #[trigger] asset_sum(self@, a) == asset_sum(s0, a) - (
                            if a == asset {
                                amount as int
                            } else {
                                0
                            }) by {
                            lemma_asset_sum_remove(s0, i as int, a);
                        }
                        assert forall|p: int, q: int| 0 <= p < q < self@.len() implies !same_key(
                            #[trigger] self@[p],
                            #[trigger] self@[q],
                        ) by {
                            let p0 = if p < i { p } else { p + 1 };
                            let q0 = if q < i { q } else { q + 1 };
                            assert(self@[p] == s0[p0] && self@[q] == s0[q0]);
                        }
                        assert forall|p: int| 0 <= p < self@.len() implies (
                        #[trigger] self@[p]).amount > 0 by {
                            let p0 = if p < i { p } else { p + 1 };
                            assert(self@[p] == s0[p0]);
                        }
                    }
                } else {
                    let e2 = BalanceEntry { amount: e.amount - amount, ..e };
                    self.entries[i] = e2;
                    proof {
                        assert forall|o: Identity, a: AssetId|
                            #[trigger] bal_of(self@, o, a) == if o == owner && a == asset {
                                (bal_of(s0, owner, asset) - amount) as u128
                            } else {
                                bal_of(s0, o, a)
                            } by {
                            lemma_bal_of_update(s0, i as int, e2, o, a);
                        }
                        assert forall|a: AssetId|
                            #[trigger] asset_sum(self@, a) == asset_sum(s0, a) - (
                            if a == asset {
                                amount as int
                            } else {
                                0
                            }) by {
                            lemma_asset_sum_update(s0, i as int, e2, a);
                        }
                        assert forall|p: int, q: int| 0 <= p < q < self@.len() implies !same_key(
                            #[trigger] self@[p],
                            #[trigger] self@[q],
                        ) by {
                            assert(same_key(s0[p], self@[p]) && same_key(s0[q], self@[q]));
                        }
                    }
                }
                Ok(())
            },
            None => {
                proof {
                    lemma_bal_of_absent(s0, owner, asset);
                }
                Err(ExchangeError::InsufficientBalance)
            },
        }
    }

    /// All positions of one owner, in entry order; empty when unknown.
    pub fn balances_of(&self, owner: Identity) -> (r: Vec<Balance>)
        ensures
            r@ == owner_entries(self@, owner),
    {
        let mut r: Vec<Balance> = Vec::new();
        let mut i: usize = 0;
        proof {
            assert(self@.take(0) =~= Seq::<BalanceEntry>::empty());
        }
        while i < self.entries.len()
            invariant
                i <= self.entries.len(),
                r@ == owner_entries(self.entries@.take(i as int), owner),
            decreases self.entries.len() - i,
        {
            let ghost pre = self.entries@.take(i as int);
            let e = self.entries[i];
            if e.owner == owner {
                r.push(Balance { asset: e.asset, amount: e.amount });
            }
            i = i + 1;
            proof {
                assert(self.entries@.take(i as int) =~= pre.push(e));
                lemma_owner_entries_push(pre, e, owner);
            }
        }
        proof {
            assert(self.entries@.take(self.entries@.len() as int) =~= self.entries@);
        }
        r
    }

    /// An element-for-element copy, used to stage a trade's ledger
    /// mutations before committing them.
    pub fn duplicate(&self) -> (r: BalanceLedger)
        ensures
            r@ == self@,
    {
        let mut entries: Vec<BalanceEntry> = Vec::new();
        let mut i: usize = 0;
        while i < self.entries.len()
            invariant
                i <= self.entries.len(),
                entries@ =~= self.entries@.take(i as int),
            decreases self.entries.len() - i,
        {
            entries.push(self.entries[i]);
            i = i + 1;
        }
        proof {
            assert(self.entries@.take(self.entries@.len() as int) =~= self.entries@);
        }
        BalanceLedger { entries }
    }
}

pub proof fn lemma_owner_entries_push(s: Seq<BalanceEntry>, e: BalanceEntry, owner: Identity)
    ensures
        owner_entries(s.push(e), owner) == owner_entries(s, owner) + (if e.owner == owner {
            seq![Balance { asset: e.asset, amount: e.amount }]
        } else {
            Seq::empty()
        }),
    decreases s.len(),
{
    if s.len() == 0 {
        assert(s.push(e)[0] == e);
        assert(s.push(e).drop_first() =~= s);
        if e.owner == owner {
            assert(owner_entries(s, owner) + seq![Balance { asset: e.asset, amount: e.amount }]
                =~= seq![Balance { asset: e.asset, amount: e.amount }] + owner_entries(s, owner));
        } else {
            assert(owner_entries(s, owner) + Seq::<Balance>::empty() =~= owner_entries(s, owner));
        }
    } else {
        assert(s.push(e)[0] == s[0]);
        assert(s.push(e).drop_first() =~= s.drop_first().push(e));
        lemma_owner_entries_push(s.drop_first(), e, owner);
        if s[0].owner == owner {
            assert(owner_entries(s.push(e), owner) == seq![
                Balance { asset: s[0].asset, amount: s[0].amount },
            ] + owner_entries(s.drop_first().push(e), owner));
            assert(seq![Balance { asset: s[0].asset, amount: s[0].amount }] + (owner_entries(
                s.drop_first(),
                owner,
            ) + (if e.owner == owner {
                seq![Balance { asset: e.asset, amount: e.amount }]
            } else {
                Seq::empty()
            })) =~= owner_entries(s, owner) + (if e.owner == owner {
                seq![Balance { asset: e.asset, amount: e.amount }]
            } else {
                Seq::empty()
            }));
        } else {
            if e.owner != owner {
                assert(owner_entries(s, owner) + Seq::<Balance>::empty() =~= owner_entries(
                    s,
                    owner,
                ));
                assert(owner_entries(s.drop_first(), owner) + Seq::<Balance>::empty()
                    =~= owner_entries(s.drop_first(), owner));
            }
        }
    }
}

} // verus!
