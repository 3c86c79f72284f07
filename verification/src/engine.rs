//! The exchange context: composes the balance ledger, the order book and
//! the matching engine, and exposes the public operation set.
//!
//! Matching: on every placement the book is scanned once for counter-orders
//! with the swapped asset pair whose rates are exact reciprocals under
//! truncating division, and each hit is settled at the taker's stated rate.
//! A trade debits and credits both owners and shrinks both orders on both
//! legs; an order reaching zero on either leg is removed. A trade either
//! applies whole or fails whole with a typed error.
use crate::book::{
    book_wf, lemma_order_of_props, lemma_order_of_wf, lemma_remove_order_erases, no_match,
    order_of, order_ok, order_shrunk, reciprocal, remove_order, OrderBook,
};
use crate::ledger::{asset_sum, bal_of, ledger_wf, owner_entries, BalanceEntry, BalanceLedger};
use crate::{AssetId, Balance, ExchangeError, Identity, Order};
use num_bigint::BigUint;
use vstd::arithmetic::div_mod::{
    lemma_div_pos_is_pos, lemma_multiply_divide_le, lemma_multiply_divide_lt,
};
use vstd::arithmetic::mul::{lemma_mul_inequality, lemma_mul_strict_inequality};
use vstd::prelude::*;

verus! {

/// The process-wide exchange state: configuration (an optional admin
/// identity), the id allocator (inside the book), the balance ledger and
/// the open-order book.
pub struct State {
    pub admin: Option<Identity>,
    pub ledger: BalanceLedger,
    pub book: OrderBook,
}

/// Both asset totals agree: no unit of any asset was created or destroyed.
pub open spec fn conserved(l1: Seq<BalanceEntry>, l0: Seq<BalanceEntry>) -> bool {
    forall|x: AssetId| #[trigger] asset_sum(l1, x) == asset_sum(l0, x)
}

/// Every order either kept its id, owner and assets with legs at most as
/// large, or left the book; nothing else appeared.
pub open spec fn books_shrunk(b1: Seq<Order>, b0: Seq<Order>) -> bool {
    forall|id2: u64| #[trigger] order_shrunk(order_of(b1, id2), order_of(b0, id2))
}

/// The traded quantity of the taker's offered asset: the smaller of what
/// the taker still offers and what the maker still asks.
pub open spec fn trade_volume(a: Order, b: Order) -> u128 {
    if a.from_amount <= b.to_amount {
        a.from_amount
    } else {
        b.to_amount
    }
}

/// The counter-leg at the taker's stated rate, floored.
pub open spec fn trade_reverse(a: Order, vol: u128) -> int {
    (vol as int * a.to_amount as int) / (a.from_amount as int)
}

/// Net balance movement of one (owner, asset) cell in one trade.
pub open spec fn trade_delta(
    o: Identity,
    x: AssetId,
    a: Order,
    b: Order,
    vol: int,
    rev: int,
) -> int {
    (if o == a.owner && x == a.to_asset {
        rev
    } else {
        0
    }) - (if o == a.owner && x == a.from_asset {
        vol
    } else {
        0
    }) + (if o == b.owner && x == b.to_asset {
        vol
    } else {
        0
    }) - (if o == b.owner && x == b.from_asset {
        rev
    } else {
        0
    })
}

/// The balances as one total map: what any (owner, asset) cell reads.
pub open spec fn bal_map(l: Seq<BalanceEntry>) -> Map<(Identity, AssetId), u128> {
    Map::total(|k: (Identity, AssetId)| bal_of(l, k.0, k.1))
}

/// The book as one total map: what any id lookup reads.
pub open spec fn order_map(s: Seq<Order>) -> Map<u64, Option<Order>> {
    Map::total(|id: u64| order_of(s, id))
}

/// One settlement's ledger movements on staged balances: the counter-leg
/// bound, the two debits, then the two credits, checked in the order the
/// settlement stages them. Returns the new balances or the typed failure
/// of the first stage that cannot proceed.
pub open spec fn settle_bals(bals: Map<(Identity, AssetId), u128>, a: Order, b: Order) -> Result<
    Map<(Identity, AssetId), u128>,
    ExchangeError,
> {
    let vol = trade_volume(a, b);
    let rev = trade_reverse(a, vol);
    if rev > b.from_amount as int {
        Err(ExchangeError::ArithmeticUnderflow)
    } else if bals[(a.owner, a.from_asset)] < vol {
        Err(ExchangeError::InternalInvariantViolation)
    } else {
        let b1 = bals.insert(
            (a.owner, a.from_asset),
            (bals[(a.owner, a.from_asset)] - vol) as u128,
        );
        if b1[(b.owner, b.from_asset)] < rev {
            Err(ExchangeError::InternalInvariantViolation)
        } else {
            let b2 = b1.insert(
                (b.owner, b.from_asset),
                (b1[(b.owner, b.from_asset)] - rev) as u128,
            );
            if b2[(a.owner, a.to_asset)] + rev > u128::MAX {
                Err(ExchangeError::ArithmeticOverflow)
            } else {
                let b3 = b2.insert(
                    (a.owner, a.to_asset),
                    (b2[(a.owner, a.to_asset)] + rev) as u128,
                );
                if b3[(b.owner, b.to_asset)] + vol > u128::MAX {
                    Err(ExchangeError::ArithmeticOverflow)
                } else {
                    Ok(
                        b3.insert(
                            (b.owner, b.to_asset),
                            (b3[(b.owner, b.to_asset)] + vol) as u128,
                        ),
                    )
                }
            }
        }
    }
}

/// The taker after one settlement: both legs shrink at its stated rate;
/// it leaves the book when its offered leg reaches zero.
pub open spec fn settled_taker(a: Order, b: Order) -> Option<Order> {
    let vol = trade_volume(a, b);
    let rev = trade_reverse(a, vol);
    if a.from_amount > vol {
        Some(
            Order {
                from_amount: (a.from_amount - vol) as u128,
                to_amount: (a.to_amount - rev) as u128,
                ..a
            },
        )
    } else {
        None
    }
}

/// The maker after one settlement: both legs shrink; it leaves the book
/// when either leg reaches zero.
pub open spec fn settled_maker(a: Order, b: Order) -> Option<Order> {
    let vol = trade_volume(a, b);
    let rev = trade_reverse(a, vol);
    if b.to_amount > vol && b.from_amount as int > rev {
        Some(
            Order {
                to_amount: (b.to_amount - vol) as u128,
                from_amount: (b.from_amount - rev) as u128,
                ..b
            },
        )
    } else {
        None
    }
}

/// One step of the matching pass: settle the taker under `id` against the
/// hit under `mid`, skipping when either has already left the book.
pub open spec fn pass_step(
    bals: Map<(Identity, AssetId), u128>,
    orders: Map<u64, Option<Order>>,
    id: u64,
    mid: u64,
) -> Result<(Map<(Identity, AssetId), u128>, Map<u64, Option<Order>>), ExchangeError> {
    if orders[id] is None || orders[mid] is None {
        Ok((bals, orders))
    } else {
        let a = orders[id].unwrap();
        let b = orders[mid].unwrap();
        match settle_bals(bals, a, b) {
            Err(e) => Err(e),
            Ok(b4) => Ok(
                (b4, orders.insert(id, settled_taker(a, b)).insert(mid, settled_maker(a, b))),
            ),
        }
    }
}

/// The whole matching pass: the recorded hits settled in scan order, each
/// against the state the previous ones left. The first failing settlement
/// aborts the pass with its error.
pub open spec fn run_pass(
    bals: Map<(Identity, AssetId), u128>,
    orders: Map<u64, Option<Order>>,
    id: u64,
    hits: Seq<u64>,
) -> Result<(Map<(Identity, AssetId), u128>, Map<u64, Option<Order>>), ExchangeError>
    decreases hits.len(),
{
    if hits.len() == 0 {
        Ok((bals, orders))
    } else {
        match pass_step(bals, orders, id, hits[0]) {
            Err(e) => Err(e),
            Ok(st) => run_pass(st.0, st.1, id, hits.drop_first()),
        }
    }
}

/// The ids the scan records for taker `a0`: every other stored order with
/// the swapped asset pair and reciprocal truncated rate, in book order.
pub open spec fn scan_seq(s: Seq<Order>, a0: Order) -> Seq<u64>
    decreases s.len(),
{
    if s.len() == 0 {
        Seq::empty()
    } else if s[0].id != a0.id && reciprocal(a0, s[0]) {
        seq![s[0].id] + scan_seq(s.drop_first(), a0)
    } else {
        scan_seq(s.drop_first(), a0)
    }
}

pub proof fn lemma_scan_seq_push(s: Seq<Order>, o: Order, a0: Order)
    ensures
        scan_seq(s.push(o), a0) == scan_seq(s, a0) + (if o.id != a0.id && reciprocal(a0, o) {
            seq![o.id]
        } else {
            Seq::empty()
        }),
    decreases s.len(),
{
    let tail = if o.id != a0.id && reciprocal(a0, o) {
        seq![o.id]
    } else {
        Seq::<u64>::empty()
    };
    if s.len() == 0 {
        assert(s.push(o)[0] == o);
        assert(s.push(o).drop_first() =~= s);
        assert(scan_seq(s, a0) + tail =~= tail + scan_seq(s, a0));
    } else {
        assert(s.push(o)[0] == s[0]);
        assert(s.push(o).drop_first() =~= s.drop_first().push(o));
        lemma_scan_seq_push(s.drop_first(), o, a0);
        if s[0].id != a0.id && reciprocal(a0, s[0]) {
            assert(seq![s[0].id] + (scan_seq(s.drop_first(), a0) + tail) =~= scan_seq(s, a0)
                + tail);
        } else {
            if !(o.id != a0.id && reciprocal(a0, o)) {
                assert(scan_seq(s, a0) + tail =~= scan_seq(s, a0));
                assert(scan_seq(s.drop_first(), a0) + tail =~= scan_seq(s.drop_first(), a0));
            }
        }
    }
}

/// The scan recorded `mid`: a counter-order distinct from the taker is
/// stored under it and settles against the taker.
pub open spec fn scan_hit(s: Seq<Order>, a0: Order, mid: u64) -> bool {
    mid != a0.id && order_of(s, mid) is Some && reciprocal(a0, order_of(s, mid).unwrap())
}

/// `o` can be touched by the pass for taker `a0`: the taker's own owner,
/// or the owner of a recorded hit.
pub open spec fn pass_involved(s: Seq<Order>, a0: Order, o: Identity) -> bool {
    o == a0.owner || exists|mid: u64|
        #[trigger] scan_hit(s, a0, mid) && order_of(s, mid).unwrap().owner == o
}

/// A ledger mutation that rewrites exactly one cell rewrites exactly that
/// key of the balance map.
pub proof fn lemma_bal_map_insert(
    l_new: Seq<BalanceEntry>,
    l_old: Seq<BalanceEntry>,
    key: (Identity, AssetId),
    v: u128,
)
    requires
        forall|o: Identity, x: AssetId|
            #[trigger] bal_of(l_new, o, x) == if o == key.0 && x == key.1 {
                v
            } else {
                bal_of(l_old, o, x)
            },
    ensures
        bal_map(l_new) == bal_map(l_old).insert(key, v),
{
    assert(bal_map(l_new).dom() =~= bal_map(l_old).insert(key, v).dom());
    assert forall|kk: (Identity, AssetId)|
        #[trigger] bal_map(l_new)[kk] == bal_map(l_old).insert(key, v)[kk] by {
        assert(bal_map(l_new)[kk] == bal_of(l_new, kk.0, kk.1));
        assert(bal_map(l_old)[kk] == bal_of(l_old, kk.0, kk.1));
    }
    assert(bal_map(l_new) =~= bal_map(l_old).insert(key, v));
}

/// A book mutation that rewrites exactly two ids rewrites exactly those
/// keys of the order map.
pub proof fn lemma_order_map_update2(
    s_new: Seq<Order>,
    s_old: Seq<Order>,
    id: u64,
    mid: u64,
    av: Option<Order>,
    bv: Option<Order>,
)
    requires
        id != mid,
        order_of(s_new, id) == av,
        order_of(s_new, mid) == bv,
        forall|id2: u64|
            id2 != id && id2 != mid ==> #[trigger] order_of(s_new, id2) == order_of(s_old, id2),
    ensures
        order_map(s_new) == order_map(s_old).insert(id, av).insert(mid, bv),
{
    let m2 = order_map(s_old).insert(id, av).insert(mid, bv);
    assert(order_map(s_new).dom() =~= m2.dom());
    assert forall|id2: u64| #[trigger] order_map(s_new)[id2] == m2[id2] by {
        assert(order_map(s_new)[id2] == order_of(s_new, id2));
        assert(order_map(s_old)[id2] == order_of(s_old, id2));
    }
    assert(order_map(s_new) =~= m2);
}

/// A recorded hit refutes "no counter-order matches the taker".
pub proof fn lemma_hit_contradicts_no_match(s: Seq<Order>, a0: Order, mid: u64)
    requires
        scan_hit(s, a0, mid),
    ensures
        !no_match(s, a0),
{
    lemma_order_of_props(s, mid);
    let i = choose|i: int| 0 <= i < s.len() && s[i] == order_of(s, mid).unwrap();
    assert(s[i].id != a0.id && reciprocal(a0, s[i]));
}

/// The order a placement constructs before matching runs.
pub open spec fn placed_order(
    pre: State,
    owner: Identity,
    from_asset: AssetId,
    from_amount: u128,
    to_asset: AssetId,
    to_amount: u128,
) -> Order {
    Order {
        id: (pre.book.next_id + 1) as u64,
        owner,
        from_asset,
        from_amount,
        to_asset,
        to_amount,
    }
}

/// One id was handed out: the allocator advanced by one and the id is its
/// new position.
pub open spec fn allocated_id(pre: State, post: State, id: u64) -> bool {
    post.book.next_id == pre.book.next_id + 1 && id == post.book.next_id
}

/// What `cancel_order` does, as a function of the book alone.
pub open spec fn spec_cancel(book: Seq<Order>, id: u64, requester: Identity) -> (Seq<Order>, Result<
    u64,
    ExchangeError,
>) {
    match order_of(book, id) {
        None => (book, Err(ExchangeError::OrderNotFound)),
        Some(o) => if o.owner != requester {
            (book, Err(ExchangeError::NotOwner))
        } else {
            (remove_order(book, id), Ok(id))
        },
    }
}

/// Conservation composes: each of `place_order`, `cancel_order` and the
/// trades inside them ensures `conserved` against its pre-state, so by this
/// lemma the per-asset totals over all owners are unchanged by any sequence
/// of them, and move only through `deposit` (`withdraw` always fails).
pub proof fn lemma_conserved_sequence(
    l0: Seq<BalanceEntry>,
    l1: Seq<BalanceEntry>,
    l2: Seq<BalanceEntry>,
)
    requires
        conserved(l1, l0),
        conserved(l2, l1),
    ensures
        conserved(l2, l0),
{
}

/// Id monotonicity: ids handed to successive placements grow strictly,
/// whatever happens to the allocator in between (no operation ever
/// decreases it), so an id is never reused even across removals.
pub proof fn lemma_place_order_ids_increase(
    s0: State,
    s1: State,
    s2: State,
    s3: State,
    id1: u64,
    id2: u64,
)
    requires
        allocated_id(s0, s1, id1),
        s2.book.next_id >= s1.book.next_id,
        allocated_id(s2, s3, id2),
    ensures
        id2 > id1,
{
}

/// Cancel idempotence: once a cancel of `id` has succeeded, a repeated
/// cancel of the same id reports `OrderNotFound` and leaves the book as
/// it is, whoever asks.
pub proof fn lemma_cancel_idempotent(book: Seq<Order>, id: u64, req1: Identity, req2: Identity)
    requires
        crate::book::ids_unique(book),
    ensures
        spec_cancel(book, id, req1).1 is Ok ==> spec_cancel(
            spec_cancel(book, id, req1).0,
            id,
            req2,
        ) == (spec_cancel(book, id, req1).0, Err::<u64, ExchangeError>(ExchangeError::OrderNotFound)),
{
    if spec_cancel(book, id, req1).1 is Ok {
        lemma_remove_order_erases(book, id);
    }
}

/// The floored counter-leg `(v * t) / f` stays within `[0, t]` when
/// `v <= f`, and below `t` when `v < f`.
pub proof fn lemma_reverse_bounds(v: int, t: int, f: int)
    requires
        0 < f,
        0 <= v <= f,
        0 <= t,
    ensures
        0 <= (v * t) / f,
        (v * t) / f <= t,
        v < f && 0 < t ==> (v * t) / f < t,
{
    lemma_div_pos_is_pos(v * t, f);
    lemma_mul_inequality(v, f, t);
    lemma_multiply_divide_le(v * t, f, t);
    if v < f && 0 < t {
        lemma_mul_strict_inequality(v, f, t);
        lemma_multiply_divide_lt(v * t, f, t);
    }
}

/// Relies on num_bigint::BigUint: `From<u128>`, exact wide multiplication
/// and flooring division, and `TryFrom<BigUint> for u128`. With `v <= f`
/// the quotient is at most `t`, so it converts back to `u128`.
#[verifier::external_body]
fn mul_div(v: u128, t: u128, f: u128) -> (r: u128)
    requires
        0 < f,
        v <= f,
    ensures
        r as int == (v as int * t as int) / (f as int),
{
    let p = BigUint::from(v) * BigUint::from(t);
    let q = p / BigUint::from(f);
    q.try_into().unwrap()
}

impl State {
    /// The whole state is well formed: ledger entries positive with unique
    /// keys, order legs positive with unique ids the allocator has covered.
    pub open spec fn wf(&self) -> bool {
        ledger_wf(self.ledger@) && book_wf(self.book@, self.book.next_id)
    }

    /// Fresh empty state, optionally recording an admin identity.
    pub fn init(admin: Option<Identity>) -> (r: State)
        ensures
            r.wf(),
            r.admin == admin,
            r.ledger@ =~= Seq::<BalanceEntry>::empty(),
            r.book@ =~= Seq::<Order>::empty(),
            r.book.next_id == 0,
    {
        State { admin, ledger: BalanceLedger::empty(), book: OrderBook::empty() }
    }

    /// Balance of (owner, asset); zero when no entry exists.
    pub fn get_balance(&self, owner: Identity, asset: AssetId) -> (r: u128)
        requires
            self.wf(),
        ensures
            r == bal_of(self.ledger@, owner, asset),
    {
        self.ledger.balance_of(owner, asset)
    }

    /// All positions of one owner; empty when the owner is unknown.
    pub fn get_balances(&self, owner: Identity) -> (r: Vec<Balance>)
        requires
            self.wf(),
        ensures
            r@ == owner_entries(self.ledger@, owner),
    {
        self.ledger.balances_of(owner)
    }

    /// Credits `amount` of `asset` to `owner` unconditionally. The debit of
    /// an outside ledger that a real deposit would pair with this is out of
    /// scope and performed by the caller's environment.
    pub fn deposit(&mut self, owner: Identity, asset: AssetId, amount: u128) -> (r: Result<
        u128,
        ExchangeError,
    >)
        requires
            old(self).wf(),
        ensures
            final(self).wf(),
            final(self).admin == old(self).admin,
            final(self).book@ == old(self).book@,
            final(self).book.next_id == old(self).book.next_id,
            r is Ok <==> bal_of(old(self).ledger@, owner, asset) + amount <= u128::MAX,
            r is Ok ==> r == Ok::<u128, ExchangeError>(amount),
            r is Err ==> r == Err::<u128, ExchangeError>(ExchangeError::ArithmeticOverflow)
                && final(self).ledger@ == old(self).ledger@,
            forall|o: Identity, x: AssetId|
                #[trigger] bal_of(final(self).ledger@, o, x) == if r is Ok && o == owner && x
                    == asset {
                    (bal_of(old(self).ledger@, owner, asset) + amount) as u128
                } else {
                    bal_of(old(self).ledger@, o, x)
                },
            forall|x: AssetId|
                #[trigger] asset_sum(final(self).ledger@, x) == asset_sum(old(self).ledger@, x) + (
                if r is Ok && x == asset {
                    amount as int
                } else {
                    0
                }),
    {
        match self.ledger.credit(owner, asset, amount) {
            Ok(()) => Ok(amount),
            Err(e) => Err(e),
        }
    }

    /// External asset transfer is not implemented in this scope: always
    /// fails with `TransferFailure` and changes nothing.
    pub fn withdraw(&mut self, owner: Identity, asset: AssetId, amount: u128) -> (r: Result<
        u128,
        ExchangeError,
    >)
        requires
            old(self).wf(),
        ensures
            *final(self) == *old(self),
            r == Err::<u128, ExchangeError>(ExchangeError::TransferFailure),
    {
        let _ = owner;
        let _ = asset;
        let _ = amount;
        Err(ExchangeError::TransferFailure)
    }

    /// The order stored under `id`, if any.
    pub fn get_order(&self, id: u64) -> (r: Option<Order>)
        requires
            self.wf(),
        ensures
            r == order_of(self.book@, id),
    {
        self.book.get(id)
    }

    /// All open orders, in book order.
    pub fn get_orders(&self) -> (r: Vec<Order>)
        ensures
            r@ == self.book@,
    {
        self.book.list_all()
    }

    /// Open orders offering `asset`.
    pub fn get_from_orders(&self, asset: AssetId) -> (r: Vec<Order>)
        ensures
            r@ == crate::book::from_orders(self.book@, asset),
    {
        self.book.list_from(asset)
    }

    /// Open orders asking `asset`.
    pub fn get_to_orders(&self, asset: AssetId) -> (r: Vec<Order>)
        ensures
            r@ == crate::book::to_orders(self.book@, asset),
    {
        self.book.list_to(asset)
    }

    /// The allocator position: the id the next placement would get, less
    /// one. Callers must keep it below `u64::MAX` to place orders.
    pub fn next_order_id(&self) -> (r: u64)
        ensures
            r == self.book.next_id,
    {
        self.book.next_id
    }

    /// Removes the order under `id` on behalf of `requester`. Fails with
    /// `OrderNotFound` when absent and `NotOwner` when owned by someone
    /// else; failures change nothing, and no balance moves either way
    /// (placement never escrowed any).
    pub fn cancel_order(&mut self, id: u64, requester: Identity) -> (r: Result<u64, ExchangeError>)
        requires
            old(self).wf(),
        ensures
            final(self).wf(),
            final(self).admin == old(self).admin,
            final(self).ledger@ == old(self).ledger@,
            final(self).book.next_id == old(self).book.next_id,
            (final(self).book@, r) == spec_cancel(old(self).book@, id, requester),
            r == Err::<u64, ExchangeError>(ExchangeError::OrderNotFound) <==> order_of(
                old(self).book@,
                id,
            ) is None,
            r == Err::<u64, ExchangeError>(ExchangeError::NotOwner) <==> (order_of(
                old(self).book@,
                id,
            ) is Some && order_of(old(self).book@, id).unwrap().owner != requester),
            r is Ok <==> (order_of(old(self).book@, id) is Some && order_of(
                old(self).book@,
                id,
            ).unwrap().owner == requester),
            r is Ok ==> r == Ok::<u64, ExchangeError>(id) && order_of(final(self).book@, id) is None
                && (forall|id2: u64|
                id2 != id ==> #[trigger] order_of(final(self).book@, id2) == order_of(
                    old(self).book@,
                    id2,
                )),
            r is Err ==> final(self).book@ == old(self).book@,
    {
        match self.book.get(id) {
            None => Err(ExchangeError::OrderNotFound),
            Some(o) => {
                if o.owner != requester {
                    Err(ExchangeError::NotOwner)
                } else {
                    let _ = self.book.remove(id);
                    Ok(id)
                }
            },
        }
    }

    /// Empties the ledger and the book; only the recorded admin may do it,
    /// and with no admin recorded nobody may. The id allocator keeps its
    /// position, so canceled history cannot resurrect ids.
    pub fn clear(&mut self, requester: Identity) -> (r: Result<(), ExchangeError>)
        requires
            old(self).wf(),
        ensures
            final(self).wf(),
            final(self).admin == old(self).admin,
            final(self).book.next_id == old(self).book.next_id,
            r is Ok <==> old(self).admin == Some(requester),
            r is Ok ==> final(self).ledger@ =~= Seq::<BalanceEntry>::empty() && final(self).book@
                =~= Seq::<Order>::empty(),
            r is Err ==> r == Err::<(), ExchangeError>(ExchangeError::NotOwner)
                && final(self).ledger@ == old(self).ledger@
                && final(self).book@ == old(self).book@,
    {
        match self.admin {
            Some(a) => {
                if a.raw == requester.raw {
                    self.ledger = BalanceLedger::empty();
                    self.book.orders = Vec::new();
                    Ok(())
                } else {
                    Err(ExchangeError::NotOwner)
                }
            },
            None => Err(ExchangeError::NotOwner),
        }
    }

    /// Settles one matched pair (`a_id` the taker, `b_id` the maker) at the
    /// taker's stated rate. Either every movement applies — and the outcome
    /// is exactly `settle_bals`/`settled_taker`/`settled_maker` of the
    /// pre-state — or nothing does and that stage's typed failure is
    /// returned.
    pub fn process_trade(&mut self, a_id: u64, b_id: u64) -> (r: Result<(), ExchangeError>)
        requires
            old(self).wf(),
            a_id != b_id,
            order_of(old(self).book@, a_id) is Some,
            order_of(old(self).book@, b_id) is Some,
            order_of(old(self).book@, a_id).unwrap().from_asset == order_of(
                old(self).book@,
                b_id,
            ).unwrap().to_asset,
            order_of(old(self).book@, a_id).unwrap().to_asset == order_of(
                old(self).book@,
                b_id,
            ).unwrap().from_asset,
        ensures
            final(self).wf(),
            final(self).admin == old(self).admin,
            final(self).book.next_id == old(self).book.next_id,
            conserved(final(self).ledger@, old(self).ledger@),
            books_shrunk(final(self).book@, old(self).book@),
            forall|id2: u64|
                id2 != a_id && id2 != b_id ==> #[trigger] order_of(final(self).book@, id2)
                    == order_of(old(self).book@, id2),
            r is Err ==> final(self).ledger@ == old(self).ledger@ && final(self).book@ == old(
                self,
            ).book@ && (r == Err::<(), ExchangeError>(ExchangeError::InternalInvariantViolation)
                || r == Err::<(), ExchangeError>(ExchangeError::ArithmeticOverflow) || r == Err::<
                (),
                ExchangeError,
            >(ExchangeError::ArithmeticUnderflow)),
            r is Ok ==> ({
                let a = order_of(old(self).book@, a_id).unwrap();
                let b = order_of(old(self).book@, b_id).unwrap();
                let vol = trade_volume(a, b);
                let rev = trade_reverse(a, vol);
                &&& vol > 0
                &&& order_of(final(self).book@, a_id) == (if a.from_amount > vol {
                    Some(
                        Order {
                            from_amount: (a.from_amount - vol) as u128,
                            to_amount: (a.to_amount - rev) as u128,
                            ..a
                        },
                    )
                } else {
                    None::<Order>
                })
                &&& order_of(final(self).book@, b_id) == (if b.to_amount > vol && b.from_amount
                    > rev {
                    Some(
                        Order {
                            to_amount: (b.to_amount - vol) as u128,
                            from_amount: (b.from_amount - rev) as u128,
                            ..b
                        },
                    )
                } else {
                    None::<Order>
                })
                &&& forall|o: Identity, x: AssetId|
                    #[trigger] bal_of(final(self).ledger@, o, x) as int == bal_of(
                        old(self).ledger@,
                        o,
                        x,
                    ) + trade_delta(o, x, a, b, vol as int, rev)
            }),
            ({
                let a = order_of(old(self).book@, a_id).unwrap();
                let b = order_of(old(self).book@, b_id).unwrap();
                match settle_bals(bal_map(old(self).ledger@), a, b) {
                    Ok(b4) => r is Ok && bal_map(final(self).ledger@) == b4 && order_of(
                        final(self).book@,
                        a_id,
                    ) == settled_taker(a, b) && order_of(final(self).book@, b_id) == settled_maker(
                        a,
                        b,
                    ),
                    Err(e) => r == Err::<(), ExchangeError>(e),
                }
            }),
    {
        proof {
            lemma_order_of_wf(self.book@, self.book.next_id, a_id);
            lemma_order_of_wf(self.book@, self.book.next_id, b_id);
        }
        let ghost l0 = self.ledger@;
        let a = self.book.get(a_id).unwrap();
        let b = self.book.get(b_id).unwrap();
        let ghost key1 = (a.owner, a.from_asset);
        let ghost key2 = (b.owner, b.from_asset);
        let ghost key3 = (a.owner, a.to_asset);
        let ghost key4 = (b.owner, b.to_asset);
        let vol = if a.from_amount <= b.to_amount {
            a.from_amount
        } else {
            b.to_amount
        };
        let rev = mul_div(vol, a.to_amount, a.from_amount);
        proof {
            lemma_reverse_bounds(vol as int, a.to_amount as int, a.from_amount as int);
            assert(vol == trade_volume(a, b));
            assert(rev as int == trade_reverse(a, vol));
        }
        if rev > b.from_amount {
            proof {
                assert(settle_bals(bal_map(l0), a, b) == Err::<
                    Map<(Identity, AssetId), u128>,
                    ExchangeError,
                >(ExchangeError::ArithmeticUnderflow));
            }
            return Err(ExchangeError::ArithmeticUnderflow);
        }
        // Stage every ledger movement on a copy; commit only when all
        // four succeed, so a failure leaves no partial trade.
        let mut led = self.ledger.duplicate();
        match led.debit(a.owner, a.from_asset, vol) {
            Ok(()) => {},
            Err(_) => {
                proof {
                    assert(bal_map(l0)[key1] == bal_of(l0, a.owner, a.from_asset));
                    assert(settle_bals(bal_map(l0), a, b) == Err::<
                        Map<(Identity, AssetId), u128>,
                        ExchangeError,
                    >(ExchangeError::InternalInvariantViolation));
                }
                return Err(ExchangeError::InternalInvariantViolation);
            },
        }
        let ghost gl1 = led@;
        proof {
            assert(bal_map(l0)[key1] == bal_of(l0, a.owner, a.from_asset));
            lemma_bal_map_insert(gl1, l0, key1, (bal_of(l0, a.owner, a.from_asset) - vol) as u128);
        }
        match led.debit(b.owner, b.from_asset, rev) {
            Ok(()) => {},
            Err(_) => {
                proof {
                    assert(bal_map(gl1)[key2] == bal_of(gl1, b.owner, b.from_asset));
                    assert(settle_bals(bal_map(l0), a, b) == Err::<
                        Map<(Identity, AssetId), u128>,
                        ExchangeError,
                    >(ExchangeError::InternalInvariantViolation));
                }
                return Err(ExchangeError::InternalInvariantViolation);
            },
        }
        let ghost gl2 = led@;
        proof {
            assert(bal_map(gl1)[key2] == bal_of(gl1, b.owner, b.from_asset));
            lemma_bal_map_insert(gl2, gl1, key2, (bal_of(gl1, b.owner, b.from_asset) - rev) as u128);
        }
        match led.credit(a.owner, a.to_asset, rev) {
            Ok(()) => {},
            Err(_) => {
                proof {
                    assert(bal_map(gl2)[key3] == bal_of(gl2, a.owner, a.to_asset));
                    assert(settle_bals(bal_map(l0), a, b) == Err::<
                        Map<(Identity, AssetId), u128>,
                        ExchangeError,
                    >(ExchangeError::ArithmeticOverflow));
                }
                return Err(ExchangeError::ArithmeticOverflow);
            },
        }
        let ghost gl3 = led@;
        proof {
            assert(bal_map(gl2)[key3] == bal_of(gl2, a.owner, a.to_asset));
            lemma_bal_map_insert(gl3, gl2, key3, (bal_of(gl2, a.owner, a.to_asset) + rev) as u128);
        }
        match led.credit(b.owner, b.to_asset, vol) {
            Ok(()) => {},
            Err(_) => {
                proof {
                    assert(bal_map(gl3)[key4] == bal_of(gl3, b.owner, b.to_asset));
                    assert(settle_bals(bal_map(l0), a, b) == Err::<
                        Map<(Identity, AssetId), u128>,
                        ExchangeError,
                    >(ExchangeError::ArithmeticOverflow));
                }
                return Err(ExchangeError::ArithmeticOverflow);
            },
        }
        let ghost gl4 = led@;
        proof {
            assert(bal_map(gl3)[key4] == bal_of(gl3, b.owner, b.to_asset));
            lemma_bal_map_insert(gl4, gl3, key4, (bal_of(gl3, b.owner, b.to_asset) + vol) as u128);
            assert(settle_bals(bal_map(l0), a, b) == Ok::<
                Map<(Identity, AssetId), u128>,
                ExchangeError,
            >(bal_map(gl4)));
        }
        self.ledger = led;
        let a_from2 = a.from_amount - vol;
        let a_to2 = a.to_amount - rev;
        if a_from2 == 0 {
            let _ = self.book.remove(a_id);
        } else {
            self.book.replace(a_id, Order { from_amount: a_from2, to_amount: a_to2, ..a });
        }
        let b_to2 = b.to_amount - vol;
        let b_from2 = b.from_amount - rev;
        if b_to2 == 0 || b_from2 == 0 {
            let _ = self.book.remove(b_id);
        } else {
            self.book.replace(b_id, Order { to_amount: b_to2, from_amount: b_from2, ..b });
        }
        Ok(())
    }

    /// One matching pass for the order under `id`: scans the book as it
    /// stands for reciprocal counter-orders, then settles the taker against
    /// each hit in scan order. No re-triggering beyond this single pass.
    /// The outcome is exactly `run_pass` of the entry state over the
    /// recorded hits; orders that are no hit, and balances of owners the
    /// pass does not involve, are untouched.
    #[verifier::loop_isolation(false)]
    #[verifier::rlimit(60)]
    pub fn resolve_order(&mut self, id: u64) -> (r: Result<(), ExchangeError>)
        requires
            old(self).wf(),
            order_of(old(self).book@, id) is Some,
        ensures
            final(self).wf(),
            final(self).admin == old(self).admin,
            final(self).book.next_id == old(self).book.next_id,
            conserved(final(self).ledger@, old(self).ledger@),
            books_shrunk(final(self).book@, old(self).book@),
            r is Err ==> (r == Err::<(), ExchangeError>(ExchangeError::InternalInvariantViolation)
                || r == Err::<(), ExchangeError>(ExchangeError::ArithmeticOverflow) || r == Err::<
                (),
                ExchangeError,
            >(ExchangeError::ArithmeticUnderflow)),
            no_match(old(self).book@, order_of(old(self).book@, id).unwrap()) ==> r is Ok
                && final(self).ledger@ == old(self).ledger@
                && final(self).book@ == old(self).book@,
            (r is Ok && order_of(final(self).book@, id) is Some && order_of(
                final(self).book@,
                id,
            ).unwrap().from_amount == order_of(old(self).book@, id).unwrap().from_amount)
                ==> no_match(old(self).book@, order_of(old(self).book@, id).unwrap()),
            forall|id2: u64|
                id2 != id && !scan_hit(
                    old(self).book@,
                    order_of(old(self).book@, id).unwrap(),
                    id2,
                ) ==> #[trigger] order_of(final(self).book@, id2) == order_of(old(self).book@, id2),
            forall|o: Identity, x: AssetId|
                !pass_involved(old(self).book@, order_of(old(self).book@, id).unwrap(), o)
                    ==> #[trigger] bal_of(final(self).ledger@, o, x) == bal_of(
                    old(self).ledger@,
                    o,
                    x,
                ),
            ({
                let a0 = order_of(old(self).book@, id).unwrap();
                match run_pass(
                    bal_map(old(self).ledger@),
                    order_map(old(self).book@),
                    id,
                    scan_seq(old(self).book@, a0),
                ) {
                    Ok(st) => r is Ok && bal_map(final(self).ledger@) == st.0 && order_map(
                        final(self).book@,
                    ) == st.1,
                    Err(e) => r == Err::<(), ExchangeError>(e),
                }
            }),
    {
        proof {
            lemma_order_of_wf(self.book@, self.book.next_id, id);
        }
        let a0 = self.book.get(id).unwrap();
        let mut hits: Vec<u64> = Vec::new();
        let mut i: usize = 0;
        proof {
            assert(self.book@.take(0) =~= Seq::<Order>::empty());
        }
        while i < self.book.orders.len()
            invariant
                i <= self.book.orders.len(),
                hits@ == scan_seq(self.book@.take(i as int), a0),
                forall|k: int|
                    0 <= k < hits@.len() ==> scan_hit(self.book@, a0, #[trigger] hits@[k]),
                hits@.len() == 0 ==> forall|j: int|
                    0 <= j < i ==> ((#[trigger] self.book@[j]).id != a0.id ==> !reciprocal(
                        a0,
                        self.book@[j],
                    )),
            decreases self.book.orders.len() - i,
        {
            let ghost pre_scan = self.book@.take(i as int);
            let ghost pre_hits = hits@;
            let b = self.book.orders[i];
            if b.id != id && a0.from_asset == b.to_asset && a0.to_asset == b.from_asset {
                proof {
                    assert(order_ok(self.book@[i as int], self.book.next_id));
                }
                let ar = a0.from_amount / a0.to_amount;
                let br = b.to_amount / b.from_amount;
                if ar == br {
                    proof {
                        crate::book::lemma_order_of_at(self.book@, i as int);
                    }
                    hits.push(b.id);
                }
            }
            i = i + 1;
            proof {
                assert(self.book@.take(i as int) =~= pre_scan.push(b));
                lemma_scan_seq_push(pre_scan, b, a0);
                if b.id != a0.id && reciprocal(a0, b) {
                    assert(scan_seq(pre_scan, a0) + seq![b.id] =~= pre_hits.push(b.id));
                } else {
                    assert(scan_seq(pre_scan, a0) + Seq::<u64>::empty() =~= pre_hits);
                }
            }
        }
        let ghost book0 = self.book@;
        let ghost led0 = self.ledger@;
        proof {
            assert(self.book@.take(self.book@.len() as int) =~= self.book@);
            assert(hits@ == scan_seq(book0, a0));
            assert(book0 == old(self).book@);
            assert(led0 == old(self).ledger@);
            if hits@.len() == 0 {
                assert(no_match(book0, a0));
            }
            assert(hits@.skip(0) =~= hits@);
        }
        let mut k: usize = 0;
        while k < hits.len()
            invariant
                k <= hits@.len(),
                self.wf(),
                self.admin == old(self).admin,
                self.book.next_id == old(self).book.next_id,
                conserved(self.ledger@, led0),
                books_shrunk(self.book@, book0),
                k == 0 ==> self.ledger@ == led0 && self.book@ == book0,
                k > 0 ==> (order_of(self.book@, id) is None || order_of(
                    self.book@,
                    id,
                ).unwrap().from_amount < a0.from_amount),
                forall|id2: u64|
                    id2 != id && !scan_hit(book0, a0, id2) ==> #[trigger] order_of(
                        self.book@,
                        id2,
                    ) == order_of(book0, id2),
                forall|o: Identity, x: AssetId|
                    !pass_involved(book0, a0, o) ==> #[trigger] bal_of(self.ledger@, o, x)
                        == bal_of(led0, o, x),
                run_pass(bal_map(led0), order_map(book0), id, hits@) == run_pass(
                    bal_map(self.ledger@),
                    order_map(self.book@),
                    id,
                    hits@.skip(k as int),
                ),
            decreases hits@.len() - k,
        {
            let mid = hits[k];
            proof {
                assert(scan_hit(book0, a0, hits@[k as int]));
                assert(hits@.skip(k as int)[0] == hits@[k as int]);
                assert(hits@.skip(k as int).len() > 0);
                assert(hits@.skip(k as int).drop_first() =~= hits@.skip(k as int + 1));
            }
            match self.book.get(id) {
                None => {
                    proof {
                        if k == 0 {
                            assert(order_of(self.book@, id) == order_of(book0, id));
                            assert(false);
                        }
                        assert(order_map(self.book@)[id] == order_of(self.book@, id));
                    }
                },
                Some(a_cur) => {
                    match self.book.get(mid) {
                        None => {
                            proof {
                                if k == 0 {
                                    assert(order_of(self.book@, mid) == order_of(book0, mid));
                                    assert(false);
                                }
                                assert(order_map(self.book@)[id] == order_of(self.book@, id));
                                assert(order_map(self.book@)[mid] == order_of(self.book@, mid));
                            }
                        },
                        Some(b_cur) => {
                            proof {
                                assert(order_shrunk(
                                    order_of(self.book@, id),
                                    order_of(book0, id),
                                ));
                                assert(order_shrunk(
                                    order_of(self.book@, mid),
                                    order_of(book0, mid),
                                ));
                                assert(order_of(book0, id) == Some(a0));
                            }
                            let ghost pre = *self;
                            match self.process_trade(id, mid) {
                                Err(e) => {
                                    proof {
                                        if no_match(book0, a0) {
                                            lemma_hit_contradicts_no_match(
                                                book0,
                                                a0,
                                                hits@[k as int],
                                            );
                                        }
                                        assert(order_map(pre.book@)[id] == Some(a_cur));
                                        assert(order_map(pre.book@)[mid] == Some(b_cur));
                                        assert(settle_bals(bal_map(pre.ledger@), a_cur, b_cur)
                                            == Err::<
                                            Map<(Identity, AssetId), u128>,
                                            ExchangeError,
                                        >(e));
                                        assert(run_pass(
                                            bal_map(led0),
                                            order_map(book0),
                                            id,
                                            hits@,
                                        ) == Err::<
                                            (Map<(Identity, AssetId), u128>, Map<
                                                u64,
                                                Option<Order>,
                                            >),
                                            ExchangeError,
                                        >(e));
                                    }
                                    return Err(e);
                                },
                                Ok(()) => {},
                            }
                            proof {
                                assert forall|id2: u64|
                                    #[trigger] order_shrunk(
                                        order_of(self.book@, id2),
                                        order_of(book0, id2),
                                    ) by {
                                    assert(order_shrunk(
                                        order_of(self.book@, id2),
                                        order_of(pre.book@, id2),
                                    ));
                                    assert(order_shrunk(
                                        order_of(pre.book@, id2),
                                        order_of(book0, id2),
                                    ));
                                }
                                assert forall|x: AssetId|
                                    #[trigger] asset_sum(self.ledger@, x) == asset_sum(
                                    led0,
                                    x,
                                ) by {
                                    assert(asset_sum(self.ledger@, x) == asset_sum(
                                        pre.ledger@,
                                        x,
                                    ));
                                    assert(asset_sum(pre.ledger@, x) == asset_sum(led0, x));
                                }
                                assert(order_of(pre.book@, id) == Some(a_cur));
                                assert(trade_volume(a_cur, b_cur) > 0);
                                assert(order_of(self.book@, id) is None || order_of(
                                    self.book@,
                                    id,
                                ).unwrap().from_amount < a0.from_amount);
                                assert forall|id2: u64|
                                    id2 != id && !scan_hit(book0, a0, id2) implies
                                    #[trigger] order_of(self.book@, id2) == order_of(
                                    book0,
                                    id2,
                                ) by {
                                    if id2 != hits@[k as int] {
                                        assert(order_of(self.book@, id2) == order_of(
                                            pre.book@,
                                            id2,
                                        ));
                                        assert(order_of(pre.book@, id2) == order_of(book0, id2));
                                    }
                                }
                                let tv = trade_volume(a_cur, b_cur);
                                let tr = trade_reverse(a_cur, tv);
                                assert forall|o: Identity, x: AssetId|
                                    !pass_involved(book0, a0, o) implies #[trigger] bal_of(
                                    self.ledger@,
                                    o,
                                    x,
                                ) == bal_of(led0, o, x) by {
                                    assert(bal_of(self.ledger@, o, x) as int == bal_of(
                                        pre.ledger@,
                                        o,
                                        x,
                                    ) + trade_delta(o, x, a_cur, b_cur, tv as int, tr));
                                    assert(a_cur.owner == a0.owner);
                                    if o == b_cur.owner {
                                        assert(order_of(book0, hits@[k as int]).unwrap().owner
                                            == o);
                                        assert(pass_involved(book0, a0, o));
                                    }
                                    assert(bal_of(pre.ledger@, o, x) == bal_of(led0, o, x));
                                }
                                assert(order_map(pre.book@)[id] == Some(a_cur));
                                assert(order_map(pre.book@)[mid] == Some(b_cur));
                                assert(settle_bals(bal_map(pre.ledger@), a_cur, b_cur) is Ok);
                                lemma_order_map_update2(
                                    self.book@,
                                    pre.book@,
                                    id,
                                    mid,
                                    settled_taker(a_cur, b_cur),
                                    settled_maker(a_cur, b_cur),
                                );
                                assert(pass_step(
                                    bal_map(pre.ledger@),
                                    order_map(pre.book@),
                                    id,
                                    mid,
                                ) == Ok::<
                                    (Map<(Identity, AssetId), u128>, Map<u64, Option<Order>>),
                                    ExchangeError,
                                >((bal_map(self.ledger@), order_map(self.book@))));
                            }
                        },
                    }
                },
            }
            k = k + 1;
        }
        proof {
            if no_match(book0, a0) && hits@.len() > 0 {
                lemma_hit_contradicts_no_match(book0, a0, hits@[0]);
            }
            if order_of(self.book@, id) is Some && order_of(self.book@, id).unwrap().from_amount
                == a0.from_amount && hits@.len() > 0 {
                assert(false);
            }
            assert(hits@.skip(hits@.len() as int) =~= Seq::<u64>::empty());
            assert(run_pass(
                bal_map(self.ledger@),
                order_map(self.book@),
                id,
                Seq::<u64>::empty(),
            ) == Ok::<
                (Map<(Identity, AssetId), u128>, Map<u64, Option<Order>>),
                ExchangeError,
            >((bal_map(self.ledger@), order_map(self.book@))));
        }
        Ok(())
    }

    /// Places an order for `owner` offering `from_amount` of `from_asset`
    /// against `to_amount` of `to_asset`, then runs one matching pass over
    /// the book as it stands. Returns the resulting order state: the
    /// (possibly reduced) open order, or `None` when it was fully settled
    /// and removed. Validation failures (`InvalidOrder` for a zero leg,
    /// `InsufficientBalance` when the offered balance does not cover the
    /// offer) change nothing; a placement that passes validation has the
    /// outcome `run_pass` fixes over the book with the new order appended.
    pub fn place_order(
        &mut self,
        owner: Identity,
        from_asset: AssetId,
        from_amount: u128,
        to_asset: AssetId,
        to_amount: u128,
    ) -> (r: Result<Option<Order>, ExchangeError>)
        requires
            old(self).wf(),
            (from_amount > 0 && to_amount > 0 && bal_of(old(self).ledger@, owner, from_asset)
                >= from_amount) ==> old(self).book.next_id < u64::MAX,
        ensures
            final(self).wf(),
            final(self).admin == old(self).admin,
            conserved(final(self).ledger@, old(self).ledger@),
            r == Err::<Option<Order>, ExchangeError>(ExchangeError::InvalidOrder) <==> (from_amount
                == 0 || to_amount == 0),
            r == Err::<Option<Order>, ExchangeError>(ExchangeError::InsufficientBalance) <==> (
            from_amount > 0 && to_amount > 0 && bal_of(old(self).ledger@, owner, from_asset)
                < from_amount),
            (from_amount == 0 || to_amount == 0 || bal_of(old(self).ledger@, owner, from_asset)
                < from_amount) ==> r is Err && final(self).ledger@ == old(self).ledger@
                && final(self).book@ == old(self).book@
                && final(self).book.next_id == old(self).book.next_id,
            (from_amount > 0 && to_amount > 0 && bal_of(old(self).ledger@, owner, from_asset)
                >= from_amount) ==> allocated_id(
                *old(self),
                *final(self),
                (old(self).book.next_id + 1) as u64,
            ),
            r is Err ==> (r == Err::<Option<Order>, ExchangeError>(ExchangeError::InvalidOrder) || r
                == Err::<Option<Order>, ExchangeError>(ExchangeError::InsufficientBalance) || r
                == Err::<Option<Order>, ExchangeError>(ExchangeError::InternalInvariantViolation)
                || r == Err::<Option<Order>, ExchangeError>(ExchangeError::ArithmeticOverflow) || r
                == Err::<Option<Order>, ExchangeError>(ExchangeError::ArithmeticUnderflow)),
            r is Ok ==> from_amount > 0 && to_amount > 0 && bal_of(
                old(self).ledger@,
                owner,
                from_asset,
            ) >= from_amount,
            r is Ok ==> r == Ok::<Option<Order>, ExchangeError>(
                order_of(final(self).book@, (old(self).book.next_id + 1) as u64),
            ),
            (from_amount > 0 && to_amount > 0 && bal_of(old(self).ledger@, owner, from_asset)
                >= from_amount) ==> order_shrunk(
                order_of(final(self).book@, (old(self).book.next_id + 1) as u64),
                Some(placed_order(*old(self), owner, from_asset, from_amount, to_asset, to_amount)),
            ),
            (from_amount > 0 && to_amount > 0 && bal_of(old(self).ledger@, owner, from_asset)
                >= from_amount) ==> forall|id2: u64|
                id2 != (old(self).book.next_id + 1) as u64 ==> #[trigger] order_shrunk(
                    order_of(final(self).book@, id2),
                    order_of(old(self).book@, id2),
                ),
            (from_amount > 0 && to_amount > 0 && bal_of(old(self).ledger@, owner, from_asset)
                >= from_amount) ==> forall|id2: u64|
                id2 != (old(self).book.next_id + 1) as u64 && !scan_hit(
                    old(self).book@.push(
                        placed_order(
                            *old(self),
                            owner,
                            from_asset,
                            from_amount,
                            to_asset,
                            to_amount,
                        ),
                    ),
                    placed_order(*old(self), owner, from_asset, from_amount, to_asset, to_amount),
                    id2,
                ) ==> #[trigger] order_of(final(self).book@, id2) == order_of(
                    old(self).book@,
                    id2,
                ),
            (from_amount > 0 && to_amount > 0 && bal_of(old(self).ledger@, owner, from_asset)
                >= from_amount) ==> forall|o: Identity, x: AssetId|
                !pass_involved(
                    old(self).book@.push(
                        placed_order(
                            *old(self),
                            owner,
                            from_asset,
                            from_amount,
                            to_asset,
                            to_amount,
                        ),
                    ),
                    placed_order(*old(self), owner, from_asset, from_amount, to_asset, to_amount),
                    o,
                ) ==> #[trigger] bal_of(final(self).ledger@, o, x) == bal_of(
                    old(self).ledger@,
                    o,
                    x,
                ),
            r is Ok ==> ((order_of(final(self).book@, (old(self).book.next_id + 1) as u64) == Some(
                placed_order(*old(self), owner, from_asset, from_amount, to_asset, to_amount),
            )) ==> no_match(
                final(self).book@,
                placed_order(*old(self), owner, from_asset, from_amount, to_asset, to_amount),
            )),
            (from_amount > 0 && to_amount > 0 && bal_of(old(self).ledger@, owner, from_asset)
                >= from_amount && no_match(
                old(self).book@,
                placed_order(*old(self), owner, from_asset, from_amount, to_asset, to_amount),
            )) ==> r == Ok::<Option<Order>, ExchangeError>(
                Some(placed_order(*old(self), owner, from_asset, from_amount, to_asset, to_amount)),
            ) && final(self).book@ == old(self).book@.push(
                placed_order(*old(self), owner, from_asset, from_amount, to_asset, to_amount),
            ) && final(self).ledger@ == old(self).ledger@,
            (from_amount > 0 && to_amount > 0 && bal_of(old(self).ledger@, owner, from_asset)
                >= from_amount) ==> ({
                let placed = placed_order(
                    *old(self),
                    owner,
                    from_asset,
                    from_amount,
                    to_asset,
                    to_amount,
                );
                let mid_book = old(self).book@.push(placed);
                match run_pass(
                    bal_map(old(self).ledger@),
                    order_map(mid_book),
                    placed.id,
                    scan_seq(mid_book, placed),
                ) {
                    Ok(st) => r == Ok::<Option<Order>, ExchangeError>(st.1[placed.id]) && bal_map(
                        final(self).ledger@,
                    ) == st.0 && order_map(final(self).book@) == st.1,
                    Err(e) => r == Err::<Option<Order>, ExchangeError>(e),
                }
            }),
    {
        if from_amount == 0 || to_amount == 0 {
            return Err(ExchangeError::InvalidOrder);
        }
        let bal = self.ledger.balance_of(owner, from_asset);
        if bal < from_amount {
            return Err(ExchangeError::InsufficientBalance);
        }
        let id = self.book.allocate_id();
        let o = Order { id, owner, from_asset, from_amount, to_asset, to_amount };
        proof {
            assert forall|j: int| 0 <= j < self.book@.len() implies (#[trigger] self.book@[j]).id
                != id by {
                assert(order_ok(old(self).book@[j], old(self).book.next_id));
            }
        }
        self.book.insert(o);
        let ghost mid = *self;
        proof {
            assert(o == placed_order(*old(self), owner, from_asset, from_amount, to_asset,
                to_amount));
            assert(mid.book@ == old(self).book@.push(o));
            assert(mid.ledger@ == old(self).ledger@);
            assert(order_of(mid.book@, id) == Some(o));
            if no_match(old(self).book@, o) {
                assert forall|j: int|
                    0 <= j < mid.book@.len() && (#[trigger] mid.book@[j]).id != o.id implies
                    !reciprocal(o, mid.book@[j]) by {
                    if j < old(self).book@.len() {
                        assert(mid.book@[j] == old(self).book@[j]);
                    }
                }
                assert(no_match(mid.book@, o));
            }
        }
        match self.resolve_order(id) {
            Err(e) => {
                proof {
                    assert forall|id2: u64|
                        id2 != id implies #[trigger] order_shrunk(
                        order_of(self.book@, id2),
                        order_of(old(self).book@, id2),
                    ) by {
                        assert(order_shrunk(order_of(self.book@, id2), order_of(mid.book@, id2)));
                        assert(order_of(mid.book@, id2) == order_of(old(self).book@, id2));
                    }
                    assert(order_shrunk(order_of(self.book@, id), order_of(mid.book@, id)));
                }
                Err(e)
            },
            Ok(()) => {
                let cur = self.book.get(id);
                proof {
                    assert forall|id2: u64|
                        id2 != id implies #[trigger] order_shrunk(
                        order_of(self.book@, id2),
                        order_of(old(self).book@, id2),
                    ) by {
                        assert(order_shrunk(order_of(self.book@, id2), order_of(mid.book@, id2)));
                        assert(order_of(mid.book@, id2) == order_of(old(self).book@, id2));
                    }
                    assert(order_shrunk(order_of(self.book@, id), order_of(mid.book@, id)));
                    assert(order_map(self.book@)[id] == order_of(self.book@, id));
                    if cur == Some(o) {
                        assert(no_match(mid.book@, o));
                        assert(self.book@ == mid.book@);
                    }
                }
                Ok(cur)
            },
        }
    }
}

impl Default for State {
    /// Empty state with no admin recorded.
    fn default() -> (r: State)
        ensures
            r.wf(),
            r.admin is None,
            r.ledger@ =~= Seq::<BalanceEntry>::empty(),
            r.book@ =~= Seq::<Order>::empty(),
            r.book.next_id == 0,
    {
        State::init(None)
    }
}

} // verus!
