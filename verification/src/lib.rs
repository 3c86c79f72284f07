//! Deterministic, single-actor exchange core: a per-owner, per-asset balance
//! ledger, an open-order book with a monotonic id allocator, and a matching
//! engine that settles orders whose exchange rates are exact reciprocals.
use vstd::prelude::*;

pub mod book;
pub mod codec;
pub mod engine;
pub mod ledger;

verus! {

/// Opaque token identifying a caller/owner. Supplied by an external
/// identity provider; the core only compares it for equality.
#[derive(Clone, Copy, PartialEq, Eq, Structural, Debug)]
pub struct Identity {
    pub raw: u128,
}

/// Opaque token identifying a fungible asset. Amounts are raw integer
/// units; the token carries no intrinsic decimals.
#[derive(Clone, Copy, PartialEq, Eq, Structural, Debug)]
pub struct AssetId {
    pub raw: u128,
}

/// One asset position reported to a caller.
#[derive(Clone, Copy, PartialEq, Eq, Structural, Debug)]
pub struct Balance {
    pub asset: AssetId,
    pub amount: u128,
}

/// An open order: `owner` offers `from_amount` of `from_asset` and asks
/// `to_amount` of `to_asset`. Both legs stay strictly positive while the
/// order is open.
#[derive(Clone, Copy, PartialEq, Eq, Structural, Debug)]
pub struct Order {
    pub id: u64,
    pub owner: Identity,
    pub from_asset: AssetId,
    pub from_amount: u128,
    pub to_asset: AssetId,
    pub to_amount: u128,
}

/// Typed failures of the public operations. Validation failures never
/// mutate state; the trade-time failures abort the trade whole.
#[derive(Clone, Copy, PartialEq, Eq, Structural, Debug)]
pub enum ExchangeError {
    /// An order leg was zero at placement.
    InvalidOrder,
    /// A debit exceeded the stored balance, or the entry was absent.
    InsufficientBalance,
    /// The order id is not in the book.
    OrderNotFound,
    /// The requester does not own the order.
    NotOwner,
    /// Amount arithmetic would exceed the representable range.
    ArithmeticOverflow,
    /// Amount arithmetic would fall below zero.
    ArithmeticUnderflow,
    /// A balance expected to back a trade was missing; the trade was
    /// aborted whole rather than half-applied.
    InternalInvariantViolation,
    /// External asset transfer is not implemented in this scope.
    TransferFailure,
}

/// The 32-byte ledger subaccount derived from a principal's raw bytes:
/// one length byte, the bytes themselves, zero padding to the end.
#[verifier::loop_isolation(false)]
pub fn subaccount_bytes(principal: &Vec<u8>) -> (r: Vec<u8>)
    requires
        principal@.len() <= 31,
    ensures
        r@.len() == 32,
        r@[0] == principal@.len() as u8,
        forall|i: int| 0 <= i < principal@.len() ==> r@[i + 1] == principal@[i],
        forall|i: int| principal@.len() < i < 32 ==> r@[i] == 0u8,
{
    let mut r: Vec<u8> = Vec::new();
    r.push(principal.len() as u8);
    let mut i: usize = 0;
    while i < principal.len()
        invariant
            i <= principal@.len(),
            r@.len() == i + 1,
            r@[0] == principal@.len() as u8,
            forall|j: int| 0 <= j < i ==> r@[j + 1] == principal@[j],
        decreases principal@.len() - i,
    {
        r.push(principal[i]);
        i = i + 1;
    }
    while r.len() < 32
        invariant
            principal@.len() + 1 <= r@.len() <= 32,
            r@[0] == principal@.len() as u8,
            forall|j: int| 0 <= j < principal@.len() ==> r@[j + 1] == principal@[j],
            forall|j: int| principal@.len() < j < r@.len() ==> r@[j] == 0u8,
        decreases 32 - r@.len(),
    {
        r.push(0u8);
    }
    r
}

} // verus!
