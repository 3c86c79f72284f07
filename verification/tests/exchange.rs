use defi_exchange::engine::State;
use defi_exchange::{AssetId, ExchangeError, Identity, Order};

fn id(raw: u128) -> Identity {
    Identity { raw }
}

fn asset(raw: u128) -> AssetId {
    AssetId { raw }
}

#[test]
fn deposit_and_balances() {
    let mut s = State::init(None);
    let a = id(1);
    let x = asset(10);
    let y = asset(11);
    assert_eq!(s.get_balance(a, x), 0);
    assert_eq!(s.deposit(a, x, 100), Ok(100));
    assert_eq!(s.deposit(a, x, 25), Ok(25));
    assert_eq!(s.deposit(a, y, 7), Ok(7));
    assert_eq!(s.get_balance(a, x), 125);
    assert_eq!(s.get_balance(a, y), 7);
    assert_eq!(s.get_balance(id(2), x), 0);
    let positions = s.get_balances(a);
    assert_eq!(positions.len(), 2);
    assert_eq!(positions[0].asset, x);
    assert_eq!(positions[0].amount, 125);
    assert_eq!(positions[1].asset, y);
    assert_eq!(positions[1].amount, 7);
    assert!(s.get_balances(id(2)).is_empty());
}

#[test]
fn deposit_overflow_is_rejected() {
    let mut s = State::init(None);
    let a = id(1);
    let x = asset(10);
    assert_eq!(s.deposit(a, x, u128::MAX), Ok(u128::MAX));
    assert_eq!(s.deposit(a, x, 1), Err(ExchangeError::ArithmeticOverflow));
    assert_eq!(s.get_balance(a, x), u128::MAX);
}

#[test]
fn withdraw_always_fails() {
    let mut s = State::init(None);
    let a = id(1);
    let x = asset(10);
    s.deposit(a, x, 50).unwrap();
    assert_eq!(s.withdraw(a, x, 10), Err(ExchangeError::TransferFailure));
    assert_eq!(s.get_balance(a, x), 50);
}

#[test]
fn scenario_full_match() {
    // Owner A deposits 100 of X and offers 100 X for 50 Y. Owner B deposits
    // 50 of Y and offers 50 Y for 100 X. After B's placement both orders are
    // gone; A holds 0 X and 50 Y, B holds 0 Y and 100 X.
    let mut s = State::init(None);
    let a = id(1);
    let b = id(2);
    let x = asset(10);
    let y = asset(11);
    s.deposit(a, x, 100).unwrap();
    let placed = s.place_order(a, x, 100, y, 50).unwrap();
    let placed = placed.expect("unmatched order stays open");
    assert_eq!(placed.id, 1);
    assert_eq!(placed.from_amount, 100);
    assert_eq!(placed.to_amount, 50);
    s.deposit(b, y, 50).unwrap();
    let settled = s.place_order(b, y, 50, x, 100).unwrap();
    assert!(settled.is_none(), "taker was fully filled and removed");
    assert!(s.get_orders().is_empty());
    assert_eq!(s.get_balance(a, x), 0);
    assert_eq!(s.get_balance(a, y), 50);
    assert_eq!(s.get_balance(b, y), 0);
    assert_eq!(s.get_balance(b, x), 100);
}

#[test]
fn scenario_insufficient_balance() {
    // Owner C holds no X: the placement fails and no order is created.
    let mut s = State::init(None);
    let c = id(3);
    let x = asset(10);
    let y = asset(11);
    assert_eq!(
        s.place_order(c, x, 10, y, 5),
        Err(ExchangeError::InsufficientBalance)
    );
    assert!(s.get_orders().is_empty());
    assert_eq!(s.next_order_id(), 0);
}

#[test]
fn scenario_unauthorized_cancel() {
    // Owner B cannot cancel A's order; it stays open.
    let mut s = State::init(None);
    let a = id(1);
    let b = id(2);
    let x = asset(10);
    let y = asset(11);
    s.deposit(a, x, 100).unwrap();
    let o = s.place_order(a, x, 100, y, 50).unwrap().unwrap();
    assert_eq!(s.cancel_order(o.id, b), Err(ExchangeError::NotOwner));
    let still = s.get_order(o.id).expect("order remains open");
    assert_eq!(still, o);
}

#[test]
fn invalid_order_zero_legs() {
    let mut s = State::init(None);
    let a = id(1);
    let x = asset(10);
    let y = asset(11);
    s.deposit(a, x, 100).unwrap();
    assert_eq!(s.place_order(a, x, 0, y, 5), Err(ExchangeError::InvalidOrder));
    assert_eq!(s.place_order(a, x, 5, y, 0), Err(ExchangeError::InvalidOrder));
    assert!(s.get_orders().is_empty());
}

#[test]
fn cancel_idempotence() {
    let mut s = State::init(None);
    let a = id(1);
    let x = asset(10);
    let y = asset(11);
    assert_eq!(s.cancel_order(77, a), Err(ExchangeError::OrderNotFound));
    s.deposit(a, x, 100).unwrap();
    let o = s.place_order(a, x, 100, y, 50).unwrap().unwrap();
    assert_eq!(s.cancel_order(o.id, a), Ok(o.id));
    assert!(s.get_order(o.id).is_none());
    // A second cancel of the same id finds nothing and changes nothing.
    assert_eq!(s.cancel_order(o.id, a), Err(ExchangeError::OrderNotFound));
    assert!(s.get_orders().is_empty());
    assert_eq!(s.get_balance(a, x), 100);
}

#[test]
fn ids_increase_across_removals() {
    let mut s = State::init(None);
    let a = id(1);
    let x = asset(10);
    let y = asset(11);
    s.deposit(a, x, 1000).unwrap();
    let o1 = s.place_order(a, x, 10, y, 10).unwrap().unwrap();
    assert_eq!(o1.id, 1);
    s.cancel_order(o1.id, a).unwrap();
    let o2 = s.place_order(a, x, 10, y, 10).unwrap().unwrap();
    assert_eq!(o2.id, 2);
    let o3 = s.place_order(a, x, 10, y, 10).unwrap().unwrap();
    assert_eq!(o3.id, 3);
    assert!(o1.id < o2.id && o2.id < o3.id);
    assert_eq!(s.next_order_id(), 3);
}

#[test]
fn partial_fill_keeps_rate_and_balances() {
    // Maker offers 100 X for 50 Y. Taker offers 10 Y for 20 X: the rates are
    // reciprocal (10/20 == 50/100 == 0 under truncating division), volume is
    // 10 and the counter-leg is 10*20/10 == 20. The taker is fully filled;
    // the maker shrinks to 80 X for 40 Y on both legs.
    let mut s = State::init(None);
    let a = id(1);
    let b = id(2);
    let x = asset(10);
    let y = asset(11);
    s.deposit(a, x, 100).unwrap();
    s.place_order(a, x, 100, y, 50).unwrap().unwrap();
    s.deposit(b, y, 10).unwrap();
    let taker = s.place_order(b, y, 10, x, 20).unwrap();
    assert!(taker.is_none());
    let maker = s.get_order(1).expect("maker stays open");
    assert_eq!(maker.from_amount, 80);
    assert_eq!(maker.to_amount, 40);
    assert_eq!(s.get_balance(a, x), 80);
    assert_eq!(s.get_balance(a, y), 10);
    assert_eq!(s.get_balance(b, y), 0);
    assert_eq!(s.get_balance(b, x), 20);
}

#[test]
fn conservation_across_operations() {
    // The per-asset total over all owners never changes through placements,
    // trades and cancels; only deposits move it.
    let mut s = State::init(None);
    let a = id(1);
    let b = id(2);
    let x = asset(10);
    let y = asset(11);
    s.deposit(a, x, 100).unwrap();
    s.deposit(b, y, 10).unwrap();
    let total =
        |s: &State| (s.get_balance(a, x) + s.get_balance(b, x), s.get_balance(a, y) + s.get_balance(b, y));
    assert_eq!(total(&s), (100, 10));
    s.place_order(a, x, 100, y, 50).unwrap();
    assert_eq!(total(&s), (100, 10));
    s.place_order(b, y, 10, x, 20).unwrap();
    assert_eq!(total(&s), (100, 10));
    s.cancel_order(1, a).unwrap();
    assert_eq!(total(&s), (100, 10));
}

#[test]
fn matching_closure_when_no_counter_order() {
    // An order placed into a book with no reciprocal counter-order comes
    // back untouched, and the book holds no immediately matchable pair.
    let mut s = State::init(None);
    let a = id(1);
    let b = id(2);
    let x = asset(10);
    let y = asset(11);
    s.deposit(a, x, 100).unwrap();
    s.deposit(b, y, 9).unwrap();
    // The asset pairs are swapped but the rates are not reciprocal under
    // truncating division (9/4 == 2, 50/100 == 0), so nothing settles and
    // both orders come back untouched.
    let o1 = s.place_order(a, x, 100, y, 50).unwrap().unwrap();
    let o2 = s.place_order(b, y, 9, x, 4).unwrap().unwrap();
    assert_eq!(o1.from_amount, 100);
    assert_eq!(o2.from_amount, 9);
    assert_eq!(s.get_orders().len(), 2);
}

#[test]
fn trade_underflow_is_typed_and_atomic() {
    // Maker offers 3 Y for 5 X; taker offers 5 X for 4 Y. Rates match
    // (5/4 == 1 == 5/3) but the counter-leg 5*4/5 == 4 exceeds the maker's
    // offered 3 Y: the trade aborts whole with a typed error and no balance
    // moves; the taker's order stays in the book.
    let mut s = State::init(None);
    let m = id(1);
    let t = id(2);
    let x = asset(10);
    let y = asset(11);
    s.deposit(m, y, 3).unwrap();
    s.place_order(m, y, 3, x, 5).unwrap().unwrap();
    s.deposit(t, x, 5).unwrap();
    assert_eq!(
        s.place_order(t, x, 5, y, 4),
        Err(ExchangeError::ArithmeticUnderflow)
    );
    assert_eq!(s.get_balance(m, y), 3);
    assert_eq!(s.get_balance(t, x), 5);
    assert_eq!(s.get_orders().len(), 2);
}

#[test]
fn trade_missing_backing_balance_is_fatal() {
    // The maker backs two orders with the same 10 Y. The taker matches both
    // in one pass; the second settlement finds the backing balance gone and
    // aborts whole with `InternalInvariantViolation`.
    let mut s = State::init(None);
    let m = id(1);
    let t = id(2);
    let x = asset(10);
    let y = asset(11);
    s.deposit(m, y, 10).unwrap();
    s.place_order(m, y, 10, x, 10).unwrap().unwrap();
    s.place_order(m, y, 10, x, 10).unwrap().unwrap();
    s.deposit(t, x, 20).unwrap();
    assert_eq!(
        s.place_order(t, x, 20, y, 20),
        Err(ExchangeError::InternalInvariantViolation)
    );
    // The first settlement of the pass stands; the failing one moved nothing.
    assert_eq!(s.get_balance(t, x) + s.get_balance(m, x), 20);
    assert_eq!(s.get_balance(t, y) + s.get_balance(m, y), 10);
}

#[test]
fn order_listings_filter_by_asset() {
    let mut s = State::init(None);
    let a = id(1);
    let x = asset(10);
    let y = asset(11);
    let z = asset(12);
    s.deposit(a, x, 100).unwrap();
    s.deposit(a, z, 100).unwrap();
    let o1 = s.place_order(a, x, 10, y, 10).unwrap().unwrap();
    let o2 = s.place_order(a, z, 10, y, 10).unwrap().unwrap();
    let all = s.get_orders();
    assert_eq!(all, vec![o1, o2]);
    assert_eq!(s.get_from_orders(x), vec![o1]);
    assert_eq!(s.get_from_orders(z), vec![o2]);
    assert!(s.get_from_orders(y).is_empty());
    assert_eq!(s.get_to_orders(y), vec![o1, o2]);
    assert!(s.get_to_orders(x).is_empty());
    assert_eq!(s.get_order(o1.id), Some(o1));
    assert_eq!(s.get_order(99), None);
}

#[test]
fn clear_is_admin_gated() {
    let admin = id(9);
    let a = id(1);
    let x = asset(10);
    let y = asset(11);
    let mut s = State::init(Some(admin));
    s.deposit(a, x, 100).unwrap();
    s.place_order(a, x, 10, y, 10).unwrap().unwrap();
    assert_eq!(s.clear(a), Err(ExchangeError::NotOwner));
    assert_eq!(s.get_orders().len(), 1);
    assert_eq!(s.clear(admin), Ok(()));
    assert!(s.get_orders().is_empty());
    assert_eq!(s.get_balance(a, x), 0);
    // The allocator keeps its position across a reset.
    assert_eq!(s.next_order_id(), 1);
    // With no admin recorded, nobody may reset.
    let mut open = State::init(None);
    assert_eq!(open.clear(a), Err(ExchangeError::NotOwner));
}

#[test]
fn snapshot_restore_round_trip() {
    let admin = id(9);
    let a = id(1);
    let b = id(2);
    let x = asset(10);
    let y = asset(11);
    let mut s = State::init(Some(admin));
    s.deposit(a, x, 100).unwrap();
    s.deposit(b, y, 10).unwrap();
    s.place_order(a, x, 100, y, 50).unwrap().unwrap();
    s.place_order(b, y, 10, x, 20).unwrap();
    let bytes = s.snapshot();
    let r = State::restore(&bytes).expect("a genuine snapshot restores");
    assert_eq!(r.admin, s.admin);
    assert_eq!(r.next_order_id(), s.next_order_id());
    assert_eq!(r.get_orders(), s.get_orders());
    assert_eq!(r.get_balance(a, x), s.get_balance(a, x));
    assert_eq!(r.get_balance(a, y), s.get_balance(a, y));
    assert_eq!(r.get_balance(b, x), s.get_balance(b, x));
    assert_eq!(r.get_balance(b, y), s.get_balance(b, y));
    assert_eq!(r.snapshot(), bytes);
}

#[test]
fn snapshot_restore_empty_state() {
    let s = State::init(None);
    let bytes = s.snapshot();
    assert_eq!(bytes.len(), 41);
    let r = State::restore(&bytes).unwrap();
    assert!(r.get_orders().is_empty());
    assert_eq!(r.next_order_id(), 0);
    assert_eq!(r.admin, None);
}

#[test]
fn restore_rejects_malformed_bytes() {
    assert!(State::restore(&Vec::new()).is_none());
    assert!(State::restore(&vec![0u8; 40]).is_none());
    // A bad admin tag is rejected.
    let mut bytes = State::init(None).snapshot();
    bytes[0] = 7;
    assert!(State::restore(&bytes).is_none());
    // A truncated or padded snapshot is rejected.
    let mut s = State::init(None);
    s.deposit(id(1), asset(10), 5).unwrap();
    let mut good = s.snapshot();
    let last = good.pop().unwrap();
    assert!(State::restore(&good).is_none());
    good.push(last);
    good.push(0);
    assert!(State::restore(&good).is_none());
}

#[test]
fn restore_rejects_invariant_violations() {
    // A snapshot edited to hold a zero balance amount is rejected: entries
    // exist only while strictly positive.
    let mut s = State::init(None);
    s.deposit(id(1), asset(10), 5).unwrap();
    let mut bytes = s.snapshot();
    // The single entry's 16 amount bytes start at 33 + 32.
    for i in 0..16 {
        bytes[65 + i] = 0;
    }
    assert!(State::restore(&bytes).is_none());
}

#[test]
fn self_order_does_not_match_itself() {
    // An order whose two assets are the same does not settle against itself.
    let mut s = State::init(None);
    let a = id(1);
    let x = asset(10);
    s.deposit(a, x, 10).unwrap();
    let o = s.place_order(a, x, 10, x, 10).unwrap().unwrap();
    assert_eq!(o.from_amount, 10);
    assert_eq!(s.get_orders(), vec![o]);
}

#[test]
fn subaccount_layout() {
    let p = vec![0xAAu8, 0xBB, 0xCC];
    let sub = defi_exchange::subaccount_bytes(&p);
    assert_eq!(sub.len(), 32);
    assert_eq!(sub[0], 3);
    assert_eq!(&sub[1..4], &[0xAA, 0xBB, 0xCC]);
    assert!(sub[4..].iter().all(|b| *b == 0));
    let empty = defi_exchange::subaccount_bytes(&Vec::new());
    assert_eq!(empty[0], 0);
    assert!(empty[1..].iter().all(|b| *b == 0));
}

#[test]
fn order_fields_carry_through() {
    let mut s = State::init(None);
    let a = id(7);
    let x = asset(100);
    let y = asset(200);
    s.deposit(a, x, 42).unwrap();
    let o = s.place_order(a, x, 42, y, 13).unwrap().unwrap();
    let expect = Order {
        id: 1,
        owner: a,
        from_asset: x,
        from_amount: 42,
        to_asset: y,
        to_amount: 13,
    };
    assert_eq!(o, expect);
    assert_eq!(s.get_order(1), Some(expect));
}
