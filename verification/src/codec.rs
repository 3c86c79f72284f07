//! Whole-state snapshot encoding for the lifecycle boundary: a
//! little-endian, length-prefixed byte layout with a proved exact round
//! trip. `restore` accepts only byte strings that parse, and only states
//! that satisfy the core invariants.
use crate::book::{book_wf, order_ok, same_id, OrderBook};
use crate::engine::State;
use crate::ledger::{ledger_wf, same_key, BalanceEntry, BalanceLedger};
use crate::{AssetId, Identity, Order};
use vstd::prelude::*;

verus! {

/// The mathematical content of a `State`: what a snapshot preserves.
pub struct StateView {
    pub admin: Option<Identity>,
    pub next_id: u64,
    pub entries: Seq<BalanceEntry>,
    pub orders: Seq<Order>,
}

impl View for State {
    type V = StateView;

    open spec fn view(&self) -> StateView {
        StateView {
            admin: self.admin,
            next_id: self.book.next_id,
            entries: self.ledger@,
            orders: self.book@,
        }
    }
}

pub open spec fn view_wf(v: StateView) -> bool {
    ledger_wf(v.entries) && book_wf(v.orders, v.next_id)
}

pub open spec fn pow256(n: nat) -> nat
    decreases n,
{
    if n == 0 {
        1
    } else {
        256 * pow256((n - 1) as nat)
    }
}

/// `v` in `n` little-endian bytes (low byte first).
pub open spec fn enc_le(v: nat, n: nat) -> Seq<u8>
    decreases n,
{
    if n == 0 {
        Seq::empty()
    } else {
        seq![(v % 256) as u8] + enc_le(v / 256, (n - 1) as nat)
    }
}

/// The value of the first `n` bytes, little-endian.
pub open spec fn dec_le(b: Seq<u8>, n: nat) -> nat
    decreases n,
{
    if n == 0 {
        0
    } else {
        (b[0] + 256 * dec_le(b.drop_first(), (n - 1) as nat)) as nat
    }
}

pub open spec fn enc_admin(a: Option<Identity>) -> Seq<u8> {
    match a {
        None => seq![0u8] + enc_le(0, 16),
        Some(x) => seq![1u8] + enc_le(x.raw as nat, 16),
    }
}

pub open spec fn enc_entry(e: BalanceEntry) -> Seq<u8> {
    enc_le(e.owner.raw as nat, 16) + enc_le(e.asset.raw as nat, 16) + enc_le(e.amount as nat, 16)
}

pub open spec fn enc_entries(s: Seq<BalanceEntry>) -> Seq<u8>
    decreases s.len(),
{
    if s.len() == 0 {
        Seq::empty()
    } else {
        enc_entry(s[0]) + enc_entries(s.drop_first())
    }
}

pub open spec fn enc_order(o: Order) -> Seq<u8> {
    enc_le(o.id as nat, 8) + enc_le(o.owner.raw as nat, 16) + enc_le(o.from_asset.raw as nat, 16)
        + enc_le(o.from_amount as nat, 16) + enc_le(o.to_asset.raw as nat, 16) + enc_le(
        o.to_amount as nat,
        16,
    )
}

pub open spec fn enc_orders(s: Seq<Order>) -> Seq<u8>
    decreases s.len(),
{
    if s.len() == 0 {
        Seq::empty()
    } else {
        enc_order(s[0]) + enc_orders(s.drop_first())
    }
}

/// The snapshot layout: admin (17) | next id (8) | entry count (8) |
/// entries (48 each) | order count (8) | orders (88 each).
pub open spec fn enc_state(v: StateView) -> Seq<u8> {
    enc_admin(v.admin) + enc_le(v.next_id as nat, 8) + enc_le(v.entries.len(), 8) + enc_entries(
        v.entries,
    ) + enc_le(v.orders.len(), 8) + enc_orders(v.orders)
}

pub open spec fn dec_admin(b: Seq<u8>) -> Option<Option<Identity>> {
    if b[0] == 0 {
        if dec_le(b.drop_first(), 16) == 0 {
            Some(None)
        } else {
            None
        }
    } else if b[0] == 1 {
        Some(Some(Identity { raw: dec_le(b.drop_first(), 16) as u128 }))
    } else {
        None
    }
}

pub open spec fn dec_entry(b: Seq<u8>) -> BalanceEntry {
    BalanceEntry {
        owner: Identity { raw: dec_le(b, 16) as u128 },
        asset: AssetId { raw: dec_le(b.skip(16), 16) as u128 },
        amount: dec_le(b.skip(32), 16) as u128,
    }
}

pub open spec fn dec_entries(b: Seq<u8>, n: nat) -> Seq<BalanceEntry>
    decreases n,
{
    if n == 0 {
        Seq::empty()
    } else {
        seq![dec_entry(b)] + dec_entries(b.skip(48), (n - 1) as nat)
    }
}

pub open spec fn dec_order(b: Seq<u8>) -> Order {
    Order {
        id: dec_le(b, 8) as u64,
        owner: Identity { raw: dec_le(b.skip(8), 16) as u128 },
        from_asset: AssetId { raw: dec_le(b.skip(24), 16) as u128 },
        from_amount: dec_le(b.skip(40), 16) as u128,
        to_asset: AssetId { raw: dec_le(b.skip(56), 16) as u128 },
        to_amount: dec_le(b.skip(72), 16) as u128,
    }
}

pub open spec fn dec_orders(b: Seq<u8>, n: nat) -> Seq<Order>
    decreases n,
{
    if n == 0 {
        Seq::empty()
    } else {
        seq![dec_order(b)] + dec_orders(b.skip(88), (n - 1) as nat)
    }
}

/// The parse of a snapshot byte string: the admin header must be exact,
/// both counts must agree with the total length, and nothing may trail.
pub open spec fn dec_state(b: Seq<u8>) -> Option<StateView> {
    if b.len() < 41 {
        None
    } else {
        match dec_admin(b) {
            None => None,
            Some(admin) => {
                let next = dec_le(b.skip(17), 8);
                let n1 = dec_le(b.skip(25), 8);
                if b.len() < 41 + n1 * 48 {
                    None
                } else {
                    let n2 = dec_le(b.skip((33 + n1 * 48) as int), 8);
                    if b.len() == 41 + n1 * 48 + n2 * 88 {
                        Some(
                            StateView {
                                admin,
                                next_id: next as u64,
                                entries: dec_entries(b.skip(33), n1),
                                orders: dec_orders(b.skip((41 + n1 * 48) as int), n2),
                            },
                        )
                    } else {
                        None
                    }
                }
            },
        }
    }
}

pub proof fn lemma_pow256_values()
    ensures
        pow256(8) == 0x10000000000000000,
        pow256(16) == 0x100000000000000000000000000000000,
{
    reveal_with_fuel(pow256, 17);
}

pub proof fn lemma_pow256_pos(n: nat)
    ensures
        pow256(n) >= 1,
    decreases n,
{
    if n > 0 {
        lemma_pow256_pos((n - 1) as nat);
    }
}

pub proof fn lemma_pow256_le(m: nat, n: nat)
    requires
        m <= n,
    ensures
        pow256(m) <= pow256(n),
    decreases n,
{
    if m < n {
        lemma_pow256_le(m, (n - 1) as nat);
        lemma_pow256_pos((n - 1) as nat);
    }
}

pub proof fn lemma_enc_le_len(v: nat, n: nat)
    ensures
        enc_le(v, n).len() == n,
    decreases n,
{
    if n > 0 {
        lemma_enc_le_len(v / 256, (n - 1) as nat);
    }
}

/// Decoding reads back what encoding wrote, whatever follows it.
pub proof fn lemma_dec_enc(v: nat, n: nat, rest: Seq<u8>)
    requires
        v < pow256(n),
    ensures
        dec_le(enc_le(v, n) + rest, n) == v,
    decreases n,
{
    if n > 0 {
        lemma_enc_le_len(v, n);
        let b = enc_le(v, n) + rest;
        assert(b[0] == (v % 256) as u8);
        assert(b.drop_first() =~= enc_le(v / 256, (n - 1) as nat) + rest);
        assert(v / 256 < pow256((n - 1) as nat)) by {
            vstd::arithmetic::div_mod::lemma_multiply_divide_lt(
                v as int,
                256,
                pow256((n - 1) as nat) as int,
            );
        }
        lemma_dec_enc(v / 256, (n - 1) as nat, rest);
    }
}

pub proof fn lemma_enc_entries_push(s: Seq<BalanceEntry>, e: BalanceEntry)
    ensures
        enc_entries(s.push(e)) == enc_entries(s) + enc_entry(e),
    decreases s.len(),
{
    if s.len() == 0 {
        assert(s.push(e)[0] == e);
        assert(s.push(e).drop_first() =~= s);
        assert(enc_entry(e) + enc_entries(s) =~= enc_entries(s) + enc_entry(e));
    } else {
        assert(s.push(e)[0] == s[0]);
        assert(s.push(e).drop_first() =~= s.drop_first().push(e));
        lemma_enc_entries_push(s.drop_first(), e);
        assert(enc_entry(s[0]) + (enc_entries(s.drop_first()) + enc_entry(e)) =~= enc_entries(s)
            + enc_entry(e));
    }
}

pub proof fn lemma_enc_orders_push(s: Seq<Order>, o: Order)
    ensures
        enc_orders(s.push(o)) == enc_orders(s) + enc_order(o),
    decreases s.len(),
{
    if s.len() == 0 {
        assert(s.push(o)[0] == o);
        assert(s.push(o).drop_first() =~= s);
        assert(enc_order(o) + enc_orders(s) =~= enc_orders(s) + enc_order(o));
    } else {
        assert(s.push(o)[0] == s[0]);
        assert(s.push(o).drop_first() =~= s.drop_first().push(o));
        lemma_enc_orders_push(s.drop_first(), o);
        assert(enc_order(s[0]) + (enc_orders(s.drop_first()) + enc_order(o)) =~= enc_orders(s)
            + enc_order(o));
    }
}

pub proof fn lemma_enc_entries_len(s: Seq<BalanceEntry>)
    ensures
        enc_entries(s).len() == 48 * s.len(),
    decreases s.len(),
{
    if s.len() > 0 {
        lemma_enc_le_len(s[0].owner.raw as nat, 16);
        lemma_enc_le_len(s[0].asset.raw as nat, 16);
        lemma_enc_le_len(s[0].amount as nat, 16);
        lemma_enc_entries_len(s.drop_first());
    }
}

pub proof fn lemma_enc_orders_len(s: Seq<Order>)
    ensures
        enc_orders(s).len() == 88 * s.len(),
    decreases s.len(),
{
    if s.len() > 0 {
        lemma_enc_le_len(s[0].id as nat, 8);
        lemma_enc_le_len(s[0].owner.raw as nat, 16);
        lemma_enc_le_len(s[0].from_asset.raw as nat, 16);
        lemma_enc_le_len(s[0].from_amount as nat, 16);
        lemma_enc_le_len(s[0].to_asset.raw as nat, 16);
        lemma_enc_le_len(s[0].to_amount as nat, 16);
        lemma_enc_orders_len(s.drop_first());
    }
}

/// One encoded entry parses back, whatever follows it.
pub proof fn lemma_dec_entry(e: BalanceEntry, rest: Seq<u8>)
    ensures
        dec_entry(enc_entry(e) + rest) == e,
        (enc_entry(e) + rest).skip(48) =~= rest,
{
    lemma_pow256_values();
    lemma_enc_le_len(e.owner.raw as nat, 16);
    lemma_enc_le_len(e.asset.raw as nat, 16);
    lemma_enc_le_len(e.amount as nat, 16);
    let b = enc_entry(e) + rest;
    assert(b =~= enc_le(e.owner.raw as nat, 16) + (enc_le(e.asset.raw as nat, 16) + (enc_le(
        e.amount as nat,
        16,
    ) + rest)));
    lemma_dec_enc(e.owner.raw as nat, 16, enc_le(e.asset.raw as nat, 16) + (enc_le(
        e.amount as nat,
        16,
    ) + rest));
    assert(b.skip(16) =~= enc_le(e.asset.raw as nat, 16) + (enc_le(e.amount as nat, 16) + rest));
    lemma_dec_enc(e.asset.raw as nat, 16, enc_le(e.amount as nat, 16) + rest);
    assert(b.skip(32) =~= enc_le(e.amount as nat, 16) + rest);
    lemma_dec_enc(e.amount as nat, 16, rest);
}

pub proof fn lemma_dec_entries(s: Seq<BalanceEntry>, rest: Seq<u8>)
    ensures
        dec_entries(enc_entries(s) + rest, s.len()) == s,
        (enc_entries(s) + rest).skip(48 * s.len() as int) =~= rest,
    decreases s.len(),
{
    lemma_enc_entries_len(s);
    if s.len() == 0 {
        assert(dec_entries(enc_entries(s) + rest, 0) =~= s);
        assert((enc_entries(s) + rest).skip(0) =~= rest);
    } else {
        let b = enc_entries(s) + rest;
        assert(b =~= enc_entry(s[0]) + (enc_entries(s.drop_first()) + rest));
        lemma_dec_entry(s[0], enc_entries(s.drop_first()) + rest);
        lemma_dec_entries(s.drop_first(), rest);
        assert(b.skip(48) =~= enc_entries(s.drop_first()) + rest);
        assert(seq![dec_entry(b)] + dec_entries(b.skip(48), (s.len() - 1) as nat) =~= s);
        assert(b.skip(48).skip(48 * (s.len() - 1)) =~= b.skip(48 * s.len() as int));
    }
}

/// One encoded order parses back, whatever follows it.
pub proof fn lemma_dec_order(o: Order, rest: Seq<u8>)
    ensures
        dec_order(enc_order(o) + rest) == o,
        (enc_order(o) + rest).skip(88) =~= rest,
{
    lemma_pow256_values();
    lemma_enc_le_len(o.id as nat, 8);
    lemma_enc_le_len(o.owner.raw as nat, 16);
    lemma_enc_le_len(o.from_asset.raw as nat, 16);
    lemma_enc_le_len(o.from_amount as nat, 16);
    lemma_enc_le_len(o.to_asset.raw as nat, 16);
    lemma_enc_le_len(o.to_amount as nat, 16);
    let b = enc_order(o) + rest;
    let t5 = enc_le(o.to_amount as nat, 16) + rest;
    let t4 = enc_le(o.to_asset.raw as nat, 16) + t5;
    let t3 = enc_le(o.from_amount as nat, 16) + t4;
    let t2 = enc_le(o.from_asset.raw as nat, 16) + t3;
    let t1 = enc_le(o.owner.raw as nat, 16) + t2;
    assert(b =~= enc_le(o.id as nat, 8) + t1);
    lemma_dec_enc(o.id as nat, 8, t1);
    assert(b.skip(8) =~= t1);
    lemma_dec_enc(o.owner.raw as nat, 16, t2);
    assert(b.skip(24) =~= t2);
    lemma_dec_enc(o.from_asset.raw as nat, 16, t3);
    assert(b.skip(40) =~= t3);
    lemma_dec_enc(o.from_amount as nat, 16, t4);
    assert(b.skip(56) =~= t4);
    lemma_dec_enc(o.to_asset.raw as nat, 16, t5);
    assert(b.skip(72) =~= t5);
    lemma_dec_enc(o.to_amount as nat, 16, rest);
}

pub proof fn lemma_dec_orders(s: Seq<Order>, rest: Seq<u8>)
    ensures
        dec_orders(enc_orders(s) + rest, s.len()) == s,
        (enc_orders(s) + rest).skip(88 * s.len() as int) =~= rest,
    decreases s.len(),
{
    lemma_enc_orders_len(s);
    if s.len() == 0 {
        assert(dec_orders(enc_orders(s) + rest, 0) =~= s);
        assert((enc_orders(s) + rest).skip(0) =~= rest);
    } else {
        let b = enc_orders(s) + rest;
        assert(b =~= enc_order(s[0]) + (enc_orders(s.drop_first()) + rest));
        lemma_dec_order(s[0], enc_orders(s.drop_first()) + rest);
        lemma_dec_orders(s.drop_first(), rest);
        assert(b.skip(88) =~= enc_orders(s.drop_first()) + rest);
        assert(seq![dec_order(b)] + dec_orders(b.skip(88), (s.len() - 1) as nat) =~= s);
        assert(b.skip(88).skip(88 * (s.len() - 1)) =~= b.skip(88 * s.len() as int));
    }
}

/// The round trip: a well-formed state's snapshot parses back to exactly
/// that state — same admin, same next id, same balances, same orders.
pub proof fn lemma_snapshot_round_trip(v: StateView)
    requires
        view_wf(v),
        v.entries.len() < 0x10000000000000000,
        v.orders.len() < 0x10000000000000000,
    ensures
        dec_state(enc_state(v)) == Some(v),
{
    lemma_pow256_values();
    let b = enc_state(v);
    let n1 = v.entries.len();
    let n2 = v.orders.len();
    lemma_enc_le_len(v.next_id as nat, 8);
    lemma_enc_le_len(n1, 8);
    lemma_enc_le_len(n2, 8);
    lemma_enc_entries_len(v.entries);
    lemma_enc_orders_len(v.orders);
    let admin_raw: nat = match v.admin {
        None => 0,
        Some(x) => x.raw as nat,
    };
    assert(enc_admin(v.admin).len() == 17) by {
        lemma_enc_le_len(admin_raw, 16);
    }
    assert(b.len() == 41 + n1 * 48 + n2 * 88);
    // admin header
    let hrest = enc_le(v.next_id as nat, 8) + (enc_le(n1, 8) + (enc_entries(v.entries) + (enc_le(
        n2,
        8,
    ) + enc_orders(v.orders))));
    assert(b =~= enc_admin(v.admin) + hrest);
    assert(b.drop_first() =~= enc_le(admin_raw, 16) + hrest) by {
        assert(enc_admin(v.admin)[0] == (match v.admin {
            None => 0u8,
            Some(x) => 1u8,
        }));
        lemma_enc_le_len(admin_raw, 16);
    }
    lemma_dec_enc(admin_raw, 16, hrest);
    assert(dec_admin(b) == Some(v.admin));
    // next id and entry count
    assert(b.skip(17) =~= enc_le(v.next_id as nat, 8) + (enc_le(n1, 8) + (enc_entries(v.entries)
        + (enc_le(n2, 8) + enc_orders(v.orders)))));
    lemma_dec_enc(v.next_id as nat, 8, enc_le(n1, 8) + (enc_entries(v.entries) + (enc_le(n2, 8)
        + enc_orders(v.orders))));
    assert(dec_le(b.skip(17), 8) == v.next_id as nat);
    assert(b.skip(25) =~= enc_le(n1, 8) + (enc_entries(v.entries) + (enc_le(n2, 8) + enc_orders(
        v.orders,
    ))));
    lemma_dec_enc(n1, 8, enc_entries(v.entries) + (enc_le(n2, 8) + enc_orders(v.orders)));
    assert(dec_le(b.skip(25), 8) == n1);
    // entries
    assert(b.skip(33) =~= enc_entries(v.entries) + (enc_le(n2, 8) + enc_orders(v.orders)));
    lemma_dec_entries(v.entries, enc_le(n2, 8) + enc_orders(v.orders));
    assert(dec_entries(b.skip(33), n1) == v.entries);
    // order count
    assert(b.skip(33).skip((48 * n1) as int) =~= b.skip((33 + n1 * 48) as int));
    assert(b.skip((33 + n1 * 48) as int) =~= enc_le(n2, 8) + enc_orders(v.orders));
    lemma_dec_enc(n2, 8, enc_orders(v.orders));
    assert(dec_le(b.skip((33 + n1 * 48) as int), 8) == n2);
    // orders
    assert(b.skip((41 + n1 * 48) as int) =~= enc_orders(v.orders) + Seq::<u8>::empty());
    lemma_dec_orders(v.orders, Seq::<u8>::empty());
    assert(dec_orders(b.skip((41 + n1 * 48) as int), n2) == v.orders);
}

#[verifier::loop_isolation(false)]
fn push_le_u64(out: &mut Vec<u8>, v: u64)
    ensures
        final(out)@ == old(out)@ + enc_le(v as nat, 8),
{
    let mut cur: u64 = v;
    let mut j: usize = 0;
    while j < 8
        invariant
            j <= 8,
            old(out)@ + enc_le(v as nat, 8) == out@ + enc_le(cur as nat, (8 - j) as nat),
        decreases 8 - j,
    {
        let ghost pre = out@;
        let ghost cur0 = cur as nat;
        let ghost m = (8 - j) as nat;
        out.push((cur % 256) as u8);
        cur = cur / 256;
        j = j + 1;
        proof {
            assert(enc_le(cur0, m) == seq![(cur0 % 256) as u8] + enc_le(cur0 / 256, (m - 1) as nat));
            assert(pre + enc_le(cur0, m) =~= out@ + enc_le(cur as nat, (8 - j) as nat));
        }
    }
    proof {
        assert(out@ + enc_le(cur as nat, 0) =~= out@);
    }
}

#[verifier::loop_isolation(false)]
fn push_le_u128(out: &mut Vec<u8>, v: u128)
    ensures
        final(out)@ == old(out)@ + enc_le(v as nat, 16),
{
    let mut cur: u128 = v;
    let mut j: usize = 0;
    while j < 16
        invariant
            j <= 16,
            old(out)@ + enc_le(v as nat, 16) == out@ + enc_le(cur as nat, (16 - j) as nat),
        decreases 16 - j,
    {
        let ghost pre = out@;
        let ghost cur0 = cur as nat;
        let ghost m = (16 - j) as nat;
        out.push((cur % 256) as u8);
        cur = cur / 256;
        j = j + 1;
        proof {
            assert(enc_le(cur0, m) == seq![(cur0 % 256) as u8] + enc_le(cur0 / 256, (m - 1) as nat));
            assert(pre + enc_le(cur0, m) =~= out@ + enc_le(cur as nat, (16 - j) as nat));
        }
    }
    proof {
        assert(out@ + enc_le(cur as nat, 0) =~= out@);
    }
}

#[verifier::loop_isolation(false)]
fn read_le_u64(bytes: &Vec<u8>, i: usize) -> (r: u64)
    requires
        i + 8 <= bytes@.len(),
    ensures
        r as nat == dec_le(bytes@.skip(i as int), 8),
{
    let n = bytes.len();
    let mut val: u64 = 0;
    let mut j: usize = 8;
    while j > 0
        invariant
            j <= 8,
            i + 8 <= n == bytes@.len(),
            val as nat == dec_le(bytes@.skip((i + j) as int), (8 - j) as nat),
            (val as nat) < pow256((8 - j) as nat),
        decreases j,
    {
        let ghost jold = j as nat;
        j = j - 1;
        proof {
            lemma_pow256_values();
            lemma_pow256_le((8 - jold + 1) as nat, 8);
            assert(pow256((8 - jold + 1) as nat) == 256 * pow256((8 - jold) as nat));
        }
        val = val * 256 + (bytes[i + j] as u64);
        proof {
            assert(bytes@.skip((i + j) as int).drop_first() =~= bytes@.skip((i + j + 1) as int));
            assert(bytes@.skip((i + j) as int)[0] == bytes@[(i + j) as int]);
        }
    }
    val
}

#[verifier::loop_isolation(false)]
fn read_le_u128(bytes: &Vec<u8>, i: usize) -> (r: u128)
    requires
        i + 16 <= bytes@.len(),
    ensures
        r as nat == dec_le(bytes@.skip(i as int), 16),
{
    let n = bytes.len();
    let mut val: u128 = 0;
    let mut j: usize = 16;
    while j > 0
        invariant
            j <= 16,
            i + 16 <= n == bytes@.len(),
            val as nat == dec_le(bytes@.skip((i + j) as int), (16 - j) as nat),
            (val as nat) < pow256((16 - j) as nat),
        decreases j,
    {
        let ghost jold = j as nat;
        j = j - 1;
        proof {
            lemma_pow256_values();
            lemma_pow256_le((16 - jold + 1) as nat, 16);
            assert(pow256((16 - jold + 1) as nat) == 256 * pow256((16 - jold) as nat));
        }
        val = val * 256 + (bytes[i + j] as u128);
        proof {
            assert(bytes@.skip((i + j) as int).drop_first() =~= bytes@.skip((i + j + 1) as int));
            assert(bytes@.skip((i + j) as int)[0] == bytes@[(i + j) as int]);
        }
    }
    val
}

/// Checks the ledger invariants executably: strictly positive amounts and
/// unique (owner, asset) keys.
#[verifier::loop_isolation(false)]
fn check_entries_wf(entries: &Vec<BalanceEntry>) -> (r: bool)
    ensures
        r == ledger_wf(entries@),
{
    let n = entries.len();
    let mut i: usize = 0;
    while i < n
        invariant
            i <= n,
            forall|p: int| 0 <= p < i ==> (#[trigger] entries@[p]).amount > 0,
            forall|p: int, q: int|
                0 <= p < i && p < q < n ==> !same_key(#[trigger] entries@[p], #[trigger] entries@[q]),
        decreases n - i,
    {
        let a = entries[i];
        if a.amount == 0 {
            return false;
        }
        let mut q: usize = i + 1;
        while q < n
            invariant
                i < q <= n,
                forall|t: int| i < t < q ==> !same_key(entries@[i as int], #[trigger] entries@[t]),
            decreases n - q,
        {
            let b = entries[q];
            if a.owner == b.owner && a.asset == b.asset {
                assert(same_key(entries@[i as int], entries@[q as int]));
                return false;
            }
            q = q + 1;
        }
        i = i + 1;
    }
    true
}

/// Checks the book invariants executably: strictly positive legs, ids in
/// `[1, next_id]`, and unique ids.
#[verifier::loop_isolation(false)]
fn check_orders_wf(orders: &Vec<Order>, next_id: u64) -> (r: bool)
    ensures
        r == book_wf(orders@, next_id),
{
    let n = orders.len();
    let mut i: usize = 0;
    while i < n
        invariant
            i <= n,
            forall|p: int| 0 <= p < i ==> order_ok(#[trigger] orders@[p], next_id),
            forall|p: int, q: int|
                0 <= p < i && p < q < n ==> !same_id(#[trigger] orders@[p], #[trigger] orders@[q]),
        decreases n - i,
    {
        let a = orders[i];
        if a.from_amount == 0 || a.to_amount == 0 || a.id == 0 || a.id > next_id {
            return false;
        }
        let mut q: usize = i + 1;
        while q < n
            invariant
                i < q <= n,
                forall|t: int| i < t < q ==> !same_id(orders@[i as int], #[trigger] orders@[t]),
            decreases n - q,
        {
            if a.id == orders[q].id {
                assert(same_id(orders@[i as int], orders@[q as int]));
                return false;
            }
            q = q + 1;
        }
        i = i + 1;
    }
    true
}

impl State {
    /// Serializes the whole state for the lifecycle boundary.
    #[verifier::loop_isolation(false)]
    #[verifier::rlimit(60)]
    pub fn snapshot(&self) -> (r: Vec<u8>)
        ensures
            r@ == enc_state(self@),
    {
        let mut out: Vec<u8> = Vec::new();
        match self.admin {
            None => {
                out.push(0u8);
                push_le_u128(&mut out, 0);
            },
            Some(x) => {
                out.push(1u8);
                push_le_u128(&mut out, x.raw);
            },
        }
        proof {
            assert(out@ =~= enc_admin(self.admin));
        }
        push_le_u64(&mut out, self.book.next_id);
        push_le_u64(&mut out, self.ledger.entries.len() as u64);
        let ghost hdr = out@;
        proof {
            assert(hdr =~= enc_admin(self.admin) + enc_le(self.book.next_id as nat, 8) + enc_le(
                self.ledger@.len(),
                8,
            ));
            assert(self.ledger.entries@.take(0) =~= Seq::<BalanceEntry>::empty());
        }
        let mut i: usize = 0;
        while i < self.ledger.entries.len()
            invariant
                i <= self.ledger.entries@.len(),
                out@ == hdr + enc_entries(self.ledger.entries@.take(i as int)),
            decreases self.ledger.entries@.len() - i,
        {
            let ghost pre = self.ledger.entries@.take(i as int);
            let e = self.ledger.entries[i];
            push_le_u128(&mut out, e.owner.raw);
            push_le_u128(&mut out, e.asset.raw);
            push_le_u128(&mut out, e.amount);
            i = i + 1;
            proof {
                assert(self.ledger.entries@.take(i as int) =~= pre.push(e));
                lemma_enc_entries_push(pre, e);
                assert(hdr + enc_entries(pre) + enc_le(e.owner.raw as nat, 16) + enc_le(
                    e.asset.raw as nat,
                    16,
                ) + enc_le(e.amount as nat, 16) =~= hdr + (enc_entries(pre) + enc_entry(e)));
            }
        }
        proof {
            assert(self.ledger.entries@.take(self.ledger.entries@.len() as int)
                =~= self.ledger.entries@);
        }
        push_le_u64(&mut out, self.book.orders.len() as u64);
        let ghost hdr2 = out@;
        proof {
            assert(self.book.orders@.take(0) =~= Seq::<Order>::empty());
        }
        let mut k: usize = 0;
        while k < self.book.orders.len()
            invariant
                k <= self.book.orders@.len(),
                out@ == hdr2 + enc_orders(self.book.orders@.take(k as int)),
            decreases self.book.orders@.len() - k,
        {
            let ghost pre = self.book.orders@.take(k as int);
            let o = self.book.orders[k];
            push_le_u64(&mut out, o.id);
            push_le_u128(&mut out, o.owner.raw);
            push_le_u128(&mut out, o.from_asset.raw);
            push_le_u128(&mut out, o.from_amount);
            push_le_u128(&mut out, o.to_asset.raw);
            push_le_u128(&mut out, o.to_amount);
            k = k + 1;
            proof {
                assert(self.book.orders@.take(k as int) =~= pre.push(o));
                lemma_enc_orders_push(pre, o);
                assert(hdr2 + enc_orders(pre) + enc_le(o.id as nat, 8) + enc_le(
                    o.owner.raw as nat,
                    16,
                ) + enc_le(o.from_asset.raw as nat, 16) + enc_le(o.from_amount as nat, 16) + enc_le(
                    o.to_asset.raw as nat,
                    16,
                ) + enc_le(o.to_amount as nat, 16) =~= hdr2 + (enc_orders(pre) + enc_order(o)));
            }
        }
        proof {
            assert(self.book.orders@.take(self.book.orders@.len() as int) =~= self.book.orders@);
            assert(out@ =~= enc_state(self@));
        }
        out
    }

    /// Parses a snapshot back into a state. Returns the state only when
    /// the bytes parse exactly and the decoded content satisfies every
    /// core invariant; anything else is rejected.
    #[verifier::loop_isolation(false)]
    #[verifier::rlimit(60)]
    pub fn restore(bytes: &Vec<u8>) -> (r: Option<State>)
        ensures
            match r {
                Some(st) => st.wf() && dec_state(bytes@) == Some(st@),
                None => dec_state(bytes@) is None || !view_wf(dec_state(bytes@).unwrap()),
            },
    {
        if bytes.len() < 41 {
            return None;
        }
        let tag = bytes[0];
        let araw = read_le_u128(bytes, 1);
        proof {
            assert(bytes@.skip(1) =~= bytes@.drop_first());
        }
        let admin: Option<Identity> = if tag == 0 {
            if araw != 0 {
                return None;
            }
            None
        } else if tag == 1 {
            Some(Identity { raw: araw })
        } else {
            return None;
        };
        proof {
            assert(dec_admin(bytes@) == Some(admin));
        }
        let next_id = read_le_u64(bytes, 17);
        let n1 = read_le_u64(bytes, 25);
        let ghost n1s = dec_le(bytes@.skip(25), 8);
        let blen = bytes.len() as u128;
        if blen < 41u128 + (n1 as u128) * 48 {
            return None;
        }
        let n1u = n1 as usize;
        let ents_end: usize = 33 + n1u * 48;
        let n2 = read_le_u64(bytes, ents_end);
        proof {
            assert(bytes@.skip(ents_end as int) =~= bytes@.skip((33 + n1s * 48) as int));
        }
        if blen != 41u128 + (n1 as u128) * 48 + (n2 as u128) * 88 {
            return None;
        }
        let mut entries: Vec<BalanceEntry> = Vec::new();
        let mut k: usize = 0;
        let mut cur: usize = 33;
        proof {
            assert(entries@ + dec_entries(bytes@.skip(33), n1 as nat) =~= dec_entries(
                bytes@.skip(33),
                n1 as nat,
            ));
        }
        while k < n1u
            invariant
                k <= n1u,
                cur == 33 + 48 * k,
                entries@.len() == k,
                entries@ + dec_entries(bytes@.skip(cur as int), (n1u - k) as nat) == dec_entries(
                    bytes@.skip(33),
                    n1 as nat,
                ),
            decreases n1u - k,
        {
            let ghost pre = entries@;
            let ghost curs = cur as int;
            let owner = read_le_u128(bytes, cur);
            let asset = read_le_u128(bytes, cur + 16);
            let amount = read_le_u128(bytes, cur + 32);
            let e = BalanceEntry {
                owner: Identity { raw: owner },
                asset: AssetId { raw: asset },
                amount,
            };
            proof {
                assert(bytes@.skip(curs).skip(16) =~= bytes@.skip(curs + 16));
                assert(bytes@.skip(curs).skip(32) =~= bytes@.skip(curs + 32));
                assert(e == dec_entry(bytes@.skip(curs)));
                assert(bytes@.skip(curs).skip(48) =~= bytes@.skip(curs + 48));
                assert(dec_entries(bytes@.skip(curs), (n1u - k) as nat) == seq![
                    dec_entry(bytes@.skip(curs)),
                ] + dec_entries(bytes@.skip(curs + 48), (n1u - k - 1) as nat));
                assert(pre.push(e) + dec_entries(bytes@.skip(curs + 48), (n1u - k - 1) as nat)
                    =~= pre + dec_entries(bytes@.skip(curs), (n1u - k) as nat));
            }
            entries.push(e);
            k = k + 1;
            cur = cur + 48;
        }
        proof {
            assert(entries@ + dec_entries(bytes@.skip(cur as int), 0) =~= entries@);
        }
        let mut orders: Vec<Order> = Vec::new();
        let mut j: usize = 0;
        let n2u = n2 as usize;
        let ostart: usize = ents_end + 8;
        let mut ocur: usize = ostart;
        proof {
            assert(bytes@.skip(ostart as int) =~= bytes@.skip((41 + n1s * 48) as int));
            assert(orders@ + dec_orders(bytes@.skip(ostart as int), n2 as nat) =~= dec_orders(
                bytes@.skip(ostart as int),
                n2 as nat,
            ));
        }
        while j < n2u
            invariant
                j <= n2u,
                ocur == ostart + 88 * j,
                orders@.len() == j,
                orders@ + dec_orders(bytes@.skip(ocur as int), (n2u - j) as nat) == dec_orders(
                    bytes@.skip(ostart as int),
                    n2 as nat,
                ),
            decreases n2u - j,
        {
            let ghost pre = orders@;
            let ghost curs = ocur as int;
            let oid = read_le_u64(bytes, ocur);
            let owner = read_le_u128(bytes, ocur + 8);
            let from_asset = read_le_u128(bytes, ocur + 24);
            let from_amount = read_le_u128(bytes, ocur + 40);
            let to_asset = read_le_u128(bytes, ocur + 56);
            let to_amount = read_le_u128(bytes, ocur + 72);
            let o = Order {
                id: oid,
                owner: Identity { raw: owner },
                from_asset: AssetId { raw: from_asset },
                from_amount,
                to_asset: AssetId { raw: to_asset },
                to_amount,
            };
            proof {
                assert(bytes@.skip(curs).skip(8) =~= bytes@.skip(curs + 8));
                assert(bytes@.skip(curs).skip(24) =~= bytes@.skip(curs + 24));
                assert(bytes@.skip(curs).skip(40) =~= bytes@.skip(curs + 40));
                assert(bytes@.skip(curs).skip(56) =~= bytes@.skip(curs + 56));
                assert(bytes@.skip(curs).skip(72) =~= bytes@.skip(curs + 72));
                assert(o == dec_order(bytes@.skip(curs)));
                assert(bytes@.skip(curs).skip(88) =~= bytes@.skip(curs + 88));
                assert(dec_orders(bytes@.skip(curs), (n2u - j) as nat) == seq![
                    dec_order(bytes@.skip(curs)),
                ] + dec_orders(bytes@.skip(curs + 88), (n2u - j - 1) as nat));
                assert(pre.push(o) + dec_orders(bytes@.skip(curs + 88), (n2u - j - 1) as nat)
                    =~= pre + dec_orders(bytes@.skip(curs), (n2u - j) as nat));
            }
            orders.push(o);
            j = j + 1;
            ocur = ocur + 88;
        }
        proof {
            assert(orders@ + dec_orders(bytes@.skip(ocur as int), 0) =~= orders@);
        }
        if !check_entries_wf(&entries) {
            return None;
        }
        if !check_orders_wf(&orders, next_id) {
            return None;
        }
        let st = State {
            admin,
            ledger: BalanceLedger { entries },
            book: OrderBook { orders, next_id },
        };
        Some(st)
    }
}

} // verus!
