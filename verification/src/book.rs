//! Open-order book: an id-keyed collection of orders together with the
//! monotonic id allocator. Ids start at 1, grow strictly, and are never
//! reused, even after removal.
use crate::Order;
use vstd::prelude::*;

verus! {

/// The order book. Ids are unique; every open order has strictly
/// positive legs and an id the allocator has already handed out.
pub struct OrderBook {
    pub orders: Vec<Order>,
    pub next_id: u64,
}

impl View for OrderBook {
    type V = Seq<Order>;

    open spec fn view(&self) -> Seq<Order> {
        self.orders@
    }
}

pub open spec fn same_id(x: Order, y: Order) -> bool {
    x.id == y.id
}

pub open spec fn ids_unique(s: Seq<Order>) -> bool {
    forall|i: int, j: int| 0 <= i < j < s.len() ==> !same_id(#[trigger] s[i], #[trigger] s[j])
}

/// An open order is well formed against the allocator position `next`.
pub open spec fn order_ok(o: Order, next: u64) -> bool {
    o.from_amount > 0 && o.to_amount > 0 && 1 <= o.id <= next
}

pub open spec fn book_wf(s: Seq<Order>, next: u64) -> bool {
    ids_unique(s) && forall|i: int| 0 <= i < s.len() ==> order_ok(#[trigger] s[i], next)
}

/// The order stored under `id`, if any (first match; unique under
/// `ids_unique`).
pub open spec fn order_of(s: Seq<Order>, id: u64) -> Option<Order>
    decreases s.len(),
{
    if s.len() == 0 {
        None
    } else if s[0].id == id {
        Some(s[0])
    } else {
        order_of(s.drop_first(), id)
    }
}

/// The book with the order under `id` taken out (first match).
pub open spec fn remove_order(s: Seq<Order>, id: u64) -> Seq<Order>
    decreases s.len(),
{
    if s.len() == 0 {
        s
    } else if s[0].id == id {
        s.drop_first()
    } else {
        seq![s[0]] + remove_order(s.drop_first(), id)
    }
}

/// Orders offering `asset`, in book order.
pub open spec fn from_orders(s: Seq<Order>, asset: crate::AssetId) -> Seq<Order>
    decreases s.len(),
{
    if s.len() == 0 {
        Seq::empty()
    } else if s[0].from_asset == asset {
        seq![s[0]] + from_orders(s.drop_first(), asset)
    } else {
        from_orders(s.drop_first(), asset)
    }
}

/// Orders asking `asset`, in book order.
pub open spec fn to_orders(s: Seq<Order>, asset: crate::AssetId) -> Seq<Order>
    decreases s.len(),
{
    if s.len() == 0 {
        Seq::empty()
    } else if s[0].to_asset == asset {
        seq![s[0]] + to_orders(s.drop_first(), asset)
    } else {
        to_orders(s.drop_first(), asset)
    }
}

/// The matching criterion: swapped asset pair and exchange rates that are
/// exact reciprocals under truncating integer division. The truncation is
/// the inherited comparison, kept as specified.
pub open spec fn reciprocal(a: Order, b: Order) -> bool {
    &&& a.from_asset == b.to_asset
    &&& a.to_asset == b.from_asset
    &&& a.from_amount as int / a.to_amount as int == b.to_amount as int / b.from_amount as int
}

/// No open counter-order in `s` can settle against `a`.
pub open spec fn no_match(s: Seq<Order>, a: Order) -> bool {
    forall|j: int| 0 <= j < s.len() && (#[trigger] s[j]).id != a.id ==> !reciprocal(a, s[j])
}

/// How an order may evolve over a settlement pass: it keeps its id,
/// owner and assets, its legs only shrink, and it may disappear.
pub open spec fn order_shrunk(new: Option<Order>, old: Option<Order>) -> bool {
    match new {
        None => true,
        Some(n) => match old {
            None => false,
            Some(o) => n.id == o.id && n.owner == o.owner && n.from_asset == o.from_asset
                && n.to_asset == o.to_asset && n.from_amount <= o.from_amount && n.to_amount
                <= o.to_amount,
        },
    }
}

pub proof fn lemma_ids_unique_drop(s: Seq<Order>)
    requires
        ids_unique(s),
        s.len() > 0,
    ensures
        ids_unique(s.drop_first()),
{
    assert forall|i: int, j: int| 0 <= i < j < s.drop_first().len() implies !same_id(
        #[trigger] s.drop_first()[i],
        #[trigger] s.drop_first()[j],
    ) by {
        assert(s.drop_first()[i] == s[i + 1]);
        assert(s.drop_first()[j] == s[j + 1]);
    }
}

/// If no stored order carries the id, the lookup is empty.
pub proof fn lemma_order_of_absent(s: Seq<Order>, id: u64)
    requires
        forall|j: int| 0 <= j < s.len() ==> (#[trigger] s[j]).id != id,
    ensures
        order_of(s, id) is None,
    decreases s.len(),
{
    if s.len() > 0 {
        assert forall|j: int| 0 <= j < s.drop_first().len() implies (
        #[trigger] s.drop_first()[j]).id != id by {
            assert(s.drop_first()[j] == s[j + 1]);
        }
        lemma_order_of_absent(s.drop_first(), id);
    }
}

/// With unique ids, the lookup returns the stored order.
pub proof fn lemma_order_of_at(s: Seq<Order>, i: int)
    requires
        ids_unique(s),
        0 <= i < s.len(),
    ensures
        order_of(s, s[i].id) == Some(s[i]),
    decreases i,
{
    if i > 0 {
        lemma_ids_unique_drop(s);
        assert(s.drop_first()[i - 1] == s[i]);
        lemma_order_of_at(s.drop_first(), i - 1);
    }
}

/// A successful lookup returns an order that is stored and carries the id.
pub proof fn lemma_order_of_props(s: Seq<Order>, id: u64)
    requires
        order_of(s, id) is Some,
    ensures
        order_of(s, id).unwrap().id == id,
        exists|i: int| 0 <= i < s.len() && s[i] == order_of(s, id).unwrap(),
    decreases s.len(),
{
    if s.len() > 0 && s[0].id != id {
        lemma_order_of_props(s.drop_first(), id);
        let i = choose|i: int|
            0 <= i < s.drop_first().len() && s.drop_first()[i] == order_of(
                s.drop_first(),
                id,
            ).unwrap();
        assert(s[i + 1] == order_of(s, id).unwrap());
    }
}

/// Replacing the order at `i` by one with the same id rewrites exactly
/// that id's lookup.
pub proof fn lemma_order_of_update(s: Seq<Order>, i: int, o2: Order, id2: u64)
    requires
        ids_unique(s),
        0 <= i < s.len(),
        o2.id == s[i].id,
    ensures
        order_of(s.update(i, o2), id2) == if id2 == s[i].id {
            Some(o2)
        } else {
            order_of(s, id2)
        },
    decreases i,
{
    let s2 = s.update(i, o2);
    if i == 0 {
        if s[0].id != id2 {
            assert(s2.drop_first() =~= s.drop_first());
        }
    } else {
        lemma_ids_unique_drop(s);
        assert(s2.drop_first() =~= s.drop_first().update(i - 1, o2));
        assert(s.drop_first()[i - 1] == s[i]);
        lemma_order_of_update(s.drop_first(), i - 1, o2, id2);
    }
}

/// Appending an order with a fresh id rewrites exactly that id's lookup.
pub proof fn lemma_order_of_push(s: Seq<Order>, o: Order, id2: u64)
    requires
        forall|j: int| 0 <= j < s.len() ==> (#[trigger] s[j]).id != o.id,
    ensures
        order_of(s.push(o), id2) == if id2 == o.id {
            Some(o)
        } else {
            order_of(s, id2)
        },
    decreases s.len(),
{
    if s.len() == 0 {
        assert(s.push(o)[0] == o);
        assert(s.push(o).drop_first() =~= s);
    } else {
        assert(s.push(o)[0] == s[0]);
        assert(s.push(o).drop_first() =~= s.drop_first().push(o));
        assert forall|j: int| 0 <= j < s.drop_first().len() implies (
        #[trigger] s.drop_first()[j]).id != o.id by {
            assert(s.drop_first()[j] == s[j + 1]);
        }
        lemma_order_of_push(s.drop_first(), o, id2);
    }
}

/// Removing the order at `i` erases exactly that id's lookup.
pub proof fn lemma_order_of_remove(s: Seq<Order>, i: int, id2: u64)
    requires
        ids_unique(s),
        0 <= i < s.len(),
    ensures
        order_of(s.remove(i), id2) == if id2 == s[i].id {
            None::<Order>
        } else {
            order_of(s, id2)
        },
    decreases i,
{
    let s2 = s.remove(i);
    if i == 0 {
        assert(s2 =~= s.drop_first());
        if id2 == s[0].id {
            assert forall|j: int| 0 <= j < s.drop_first().len() implies (
            #[trigger] s.drop_first()[j]).id != id2 by {
                assert(s.drop_first()[j] == s[j + 1]);
                assert(!same_id(s[0], s[j + 1]));
            }
            lemma_order_of_absent(s.drop_first(), id2);
        }
    } else {
        lemma_ids_unique_drop(s);
        assert(s2.drop_first() =~= s.drop_first().remove(i - 1));
        assert(s.drop_first()[i - 1] == s[i]);
        lemma_order_of_remove(s.drop_first(), i - 1, id2);
    }
}

/// With unique ids, removing by id is removing at the stored index.
pub proof fn lemma_remove_order_at(s: Seq<Order>, i: int)
    requires
        ids_unique(s),
        0 <= i < s.len(),
    ensures
        remove_order(s, s[i].id) =~= s.remove(i),
    decreases i,
{
    if i == 0 {
        assert(s.remove(0) =~= s.drop_first());
    } else {
        lemma_ids_unique_drop(s);
        assert(s.drop_first()[i - 1] == s[i]);
        assert(!same_id(s[0], s[i]));
        lemma_remove_order_at(s.drop_first(), i - 1);
        assert(seq![s[0]] + remove_order(s.drop_first(), s[i].id) =~= s.remove(i));
    }
}

/// Removing an absent id changes nothing.
pub proof fn lemma_remove_order_absent(s: Seq<Order>, id: u64)
    requires
        forall|j: int| 0 <= j < s.len() ==> (#[trigger] s[j]).id != id,
    ensures
        remove_order(s, id) =~= s,
    decreases s.len(),
{
    if s.len() > 0 {
        assert forall|j: int| 0 <= j < s.drop_first().len() implies (
        #[trigger] s.drop_first()[j]).id != id by {
            assert(s.drop_first()[j] == s[j + 1]);
        }
        lemma_remove_order_absent(s.drop_first(), id);
        assert(seq![s[0]] + remove_order(s.drop_first(), id) =~= s);
    }
}

/// A stored order found by id is well formed and carries that id.
pub proof fn lemma_order_of_wf(s: Seq<Order>, next: u64, id: u64)
    requires
        book_wf(s, next),
        order_of(s, id) is Some,
    ensures
        order_ok(order_of(s, id).unwrap(), next),
        order_of(s, id).unwrap().id == id,
{
    lemma_order_of_props(s, id);
    let i = choose|i: int| 0 <= i < s.len() && s[i] == order_of(s, id).unwrap();
    assert(order_ok(s[i], next));
}

/// After removing an id, that id is no longer found.
pub proof fn lemma_remove_order_erases(s: Seq<Order>, id: u64)
    requires
        ids_unique(s),
    ensures
        order_of(remove_order(s, id), id) is None,
{
    if order_of(s, id) is Some {
        lemma_order_of_props(s, id);
        let i = choose|i: int| 0 <= i < s.len() && s[i] == order_of(s, id).unwrap();
        lemma_remove_order_at(s, i);
        lemma_order_of_remove(s, i, id);
    } else {
        assert forall|j: int| 0 <= j < s.len() implies (#[trigger] s[j]).id != id by {
            if s[j].id == id {
                lemma_order_of_at(s, j);
            }
        }
        lemma_remove_order_absent(s, id);
    }
}

pub proof fn lemma_from_orders_push(s: Seq<Order>, o: Order, asset: crate::AssetId)
    ensures
        from_orders(s.push(o), asset) == from_orders(s, asset) + (if o.from_asset == asset {
            seq![o]
        } else {
            Seq::empty()
        }),
    decreases s.len(),
{
    if s.len() == 0 {
        assert(s.push(o)[0] == o);
        assert(s.push(o).drop_first() =~= s);
        if o.from_asset == asset {
            assert(from_orders(s, asset) + seq![o] =~= seq![o] + from_orders(s, asset));
        } else {
            assert(from_orders(s, asset) + Seq::<Order>::empty() =~= from_orders(s, asset));
        }
    } else {
        assert(s.push(o)[0] == s[0]);
        assert(s.push(o).drop_first() =~= s.drop_first().push(o));
        lemma_from_orders_push(s.drop_first(), o, asset);
        let tail = if o.from_asset == asset {
            seq![o]
        } else {
            Seq::<Order>::empty()
        };
        if s[0].from_asset == asset {
            assert(seq![s[0]] + (from_orders(s.drop_first(), asset) + tail) =~= from_orders(
                s,
                asset,
            ) + tail);
        } else {
            if o.from_asset != asset {
                assert(from_orders(s, asset) + tail =~= from_orders(s, asset));
                assert(from_orders(s.drop_first(), asset) + tail =~= from_orders(
                    s.drop_first(),
                    asset,
                ));
            }
        }
    }
}

pub proof fn lemma_to_orders_push(s: Seq<Order>, o: Order, asset: crate::AssetId)
    ensures
        to_orders(s.push(o), asset) == to_orders(s, asset) + (if o.to_asset == asset {
            seq![o]
        } else {
            Seq::empty()
        }),
    decreases s.len(),
{
    if s.len() == 0 {
        assert(s.push(o)[0] == o);
        assert(s.push(o).drop_first() =~= s);
        if o.to_asset == asset {
            assert(to_orders(s, asset) + seq![o] =~= seq![o] + to_orders(s, asset));
        } else {
            assert(to_orders(s, asset) + Seq::<Order>::empty() =~= to_orders(s, asset));
        }
    } else {
        assert(s.push(o)[0] == s[0]);
        assert(s.push(o).drop_first() =~= s.drop_first().push(o));
        lemma_to_orders_push(s.drop_first(), o, asset);
        let tail = if o.to_asset == asset {
            seq![o]
        } else {
            Seq::<Order>::empty()
        };
        if s[0].to_asset == asset {
            assert(seq![s[0]] + (to_orders(s.drop_first(), asset) + tail) =~= to_orders(s, asset)
                + tail);
        } else {
            if o.to_asset != asset {
                assert(to_orders(s, asset) + tail =~= to_orders(s, asset));
                assert(to_orders(s.drop_first(), asset) + tail =~= to_orders(s.drop_first(), asset));
            }
        }
    }
}

impl OrderBook {
    pub open spec fn wf(&self) -> bool {
        book_wf(self@, self.next_id)
    }

    /// An empty book; the allocator will hand out 1 first.
    pub fn empty() -> (r: OrderBook)
        ensures
            r.wf(),
            r@ =~= Seq::<Order>::empty(),
            r.next_id == 0,
    {
        OrderBook { orders: Vec::new(), next_id: 0 }
    }

    fn find_index(&self, id: u64) -> (r: Option<usize>)
        ensures
            match r {
                Some(i) => i < self@.len() && self@[i as int].id == id,
                None => forall|j: int| 0 <= j < self@.len() ==> (#[trigger] self@[j]).id != id,
            },
    {
        let mut i: usize = 0;
        while i < self.orders.len()
            invariant
                i <= self.orders.len(),
                forall|j: int| 0 <= j < i ==> (#[trigger] self.orders@[j]).id != id,
            decreases self.orders.len() - i,
        {
            if self.orders[i].id == id {
                return Some(i);
            }
            i = i + 1;
        }
        None
    }

    /// Strictly increasing id allocation, starting at 1.
    pub fn allocate_id(&mut self) -> (id: u64)
        requires
            old(self).wf(),
            old(self).next_id < u64::MAX,
        ensures
            final(self).wf(),
            final(self)@ == old(self)@,
            id == old(self).next_id + 1,
            final(self).next_id == id,
    {
        self.next_id = self.next_id + 1;
        self.next_id
    }

    /// The order stored under `id`, if any.
    pub fn get(&self, id: u64) -> (r: Option<Order>)
        requires
            self.wf(),
        ensures
            r == order_of(self@, id),
    {
        match self.find_index(id) {
            Some(i) => {
                proof {
                    lemma_order_of_at(self@, i as int);
                }
                Some(self.orders[i])
            },
            None => {
                proof {
                    lemma_order_of_absent(self@, id);
                }
                None
            },
        }
    }

    /// Stores a well-formed order under a fresh id.
    pub fn insert(&mut self, o: Order)
        requires
            old(self).wf(),
            order_ok(o, old(self).next_id),
            forall|j: int| 0 <= j < old(self)@.len() ==> (#[trigger] old(self)@[j]).id != o.id,
        ensures
            final(self).wf(),
            final(self)@ == old(self)@.push(o),
            final(self).next_id == old(self).next_id,
            forall|id2: u64|
                #[trigger] order_of(final(self)@, id2) == if id2 == o.id {
                    Some(o)
                } else {
                    order_of(old(self)@, id2)
                },
    {
        let ghost s0 = self.orders@;
        self.orders.push(o);
        proof {
            assert forall|id2: u64|
                #[trigger] order_of(self@, id2) == if id2 == o.id {
                    Some(o)
                } else {
                    order_of(s0, id2)
                } by {
                lemma_order_of_push(s0, o, id2);
            }
            assert forall|p: int, q: int| 0 <= p < q < self@.len() implies !same_id(
                #[trigger] self@[p],
                #[trigger] self@[q],
            ) by {
                if q < s0.len() {
                } else {
                    assert(self@[q] == o);
                    assert(s0[p].id != o.id);
                }
            }
        }
    }

    /// Takes the order under `id` out of the book and returns it; absent
    /// ids leave the book unchanged and return nothing.
    pub fn remove(&mut self, id: u64) -> (r: Option<Order>)
        requires
            old(self).wf(),
        ensures
            final(self).wf(),
            r == order_of(old(self)@, id),
            final(self)@ == remove_order(old(self)@, id),
            final(self).next_id == old(self).next_id,
            order_of(final(self)@, id) is None,
            forall|id2: u64|
                id2 != id ==> #[trigger] order_of(final(self)@, id2) == order_of(old(self)@, id2),
    {
        let ghost s0 = self.orders@;
        match self.find_index(id) {
            Some(i) => {
                proof {
                    lemma_order_of_at(s0, i as int);
                    lemma_remove_order_at(s0, i as int);
                }
                let o = self.orders.remove(i);
                proof {
                    assert forall|id2: u64|
                        #[trigger] order_of(self@, id2) == if id2 == id {
                            None::<Order>
                        } else {
                            order_of(s0, id2)
                        } by {
                        lemma_order_of_remove(s0, i as int, id2);
                    }
                    assert forall|p: int, q: int| 0 <= p < q < self@.len() implies !same_id(
                        #[trigger] self@[p],
                        #[trigger] self@[q],
                    ) by {
                        let p0 = if p < i { p } else { p + 1 };
                        let q0 = if q < i { q } else { q + 1 };
                        assert(self@[p] == s0[p0] && self@[q] == s0[q0]);
                    }
                    assert forall|p: int| 0 <= p < self@.len() implies order_ok(
                        #[trigger] self@[p],
                        self.next_id,
                    ) by {
                        let p0 = if p < i { p } else { p + 1 };
                        assert(self@[p] == s0[p0]);
                    }
                }
                Some(o)
            },
            None => {
                proof {
                    lemma_order_of_absent(s0, id);
                    lemma_remove_order_absent(s0, id);
                }
                None
            },
        }
    }

    /// Overwrites the order stored under `id` with `o2`, which must keep
    /// the id and strictly positive legs.
    pub fn replace(&mut self, id: u64, o2: Order)
        requires
            old(self).wf(),
            order_of(old(self)@, id) is Some,
            o2.id == id,
            o2.from_amount > 0,
            o2.to_amount > 0,
        ensures
            final(self).wf(),
            final(self).next_id == old(self).next_id,
            final(self)@.len() == old(self)@.len(),
            forall|id2: u64|
                #[trigger] order_of(final(self)@, id2) == if id2 == id {
                    Some(o2)
                } else {
                    order_of(old(self)@, id2)
                },
    {
        let ghost s0 = self.orders@;
        match self.find_index(id) {
            Some(i) => {
                self.orders[i] = o2;
                proof {
                    assert forall|id2: u64|
                        #[trigger] order_of(self@, id2) == if id2 == id {
                            Some(o2)
                        } else {
                            order_of(s0, id2)
                        } by {
                        lemma_order_of_update(s0, i as int, o2, id2);
                    }
                    assert forall|p: int, q: int| 0 <= p < q < self@.len() implies !same_id(
                        #[trigger] self@[p],
                        #[trigger] self@[q],
                    ) by {
                        assert(same_id(s0[p], self@[p]) && same_id(s0[q], self@[q]));
                    }
                    assert forall|p: int| 0 <= p < self@.len() implies order_ok(
                        #[trigger] self@[p],
                        self.next_id,
                    ) by {
                        if p != i {
                            assert(self@[p] == s0[p]);
                        }
                    }
                }
            },
            None => {
                proof {
                    lemma_order_of_absent(s0, id);
                    assert(false);
                }
            },
        }
    }

    /// All open orders, in book order.
    pub fn list_all(&self) -> (r: Vec<Order>)
        ensures
            r@ == self@,
    {
        let mut r: Vec<Order> = Vec::new();
        let mut i: usize = 0;
        while i < self.orders.len()
            invariant
                i <= self.orders.len(),
                r@ =~= self.orders@.take(i as int),
            decreases self.orders.len() - i,
        {
            r.push(self.orders[i]);
            i = i + 1;
        }
        proof {
            assert(self.orders@.take(self.orders@.len() as int) =~= self.orders@);
        }
        r
    }

    /// Open orders offering `asset`.
    pub fn list_from(&self, asset: crate::AssetId) -> (r: Vec<Order>)
        ensures
            r@ == from_orders(self@, asset),
    {
        let mut r: Vec<Order> = Vec::new();
        let mut i: usize = 0;
        proof {
            assert(self.orders@.take(0) =~= Seq::<Order>::empty());
        }
        while i < self.orders.len()
            invariant
                i <= self.orders.len(),
                r@ == from_orders(self.orders@.take(i as int), asset),
            decreases self.orders.len() - i,
        {
            let ghost pre = self.orders@.take(i as int);
            let o = self.orders[i];
            if o.from_asset == asset {
                r.push(o);
            }
            i = i + 1;
            proof {
                assert(self.orders@.take(i as int) =~= pre.push(o));
                lemma_from_orders_push(pre, o, asset);
                if o.from_asset == asset {
                    assert(from_orders(pre, asset) + seq![o] =~= from_orders(pre, asset).push(o));
                } else {
                    assert(from_orders(pre, asset) + Seq::<Order>::empty() =~= from_orders(
                        pre,
                        asset,
                    ));
                }
            }
        }
        proof {
            assert(self.orders@.take(self.orders@.len() as int) =~= self.orders@);
        }
        r
    }

    /// Open orders asking `asset`.
    pub fn list_to(&self, asset: crate::AssetId) -> (r: Vec<Order>)
        ensures
            r@ == to_orders(self@, asset),
    {
        let mut r: Vec<Order> = Vec::new();
        let mut i: usize = 0;
        proof {
            assert(self.orders@.take(0) =~= Seq::<Order>::empty());
        }
        while i < self.orders.len()
            invariant
                i <= self.orders.len(),
                r@ == to_orders(self.orders@.take(i as int), asset),
            decreases self.orders.len() - i,
        {
            let ghost pre = self.orders@.take(i as int);
            let o = self.orders[i];
            if o.to_asset == asset {
                r.push(o);
            }
            i = i + 1;
            proof {
                assert(self.orders@.take(i as int) =~= pre.push(o));
                lemma_to_orders_push(pre, o, asset);
                if o.to_asset == asset {
                    assert(to_orders(pre, asset) + seq![o] =~= to_orders(pre, asset).push(o));
                } else {
                    assert(to_orders(pre, asset) + Seq::<Order>::empty() =~= to_orders(pre, asset));
                }
            }
        }
        proof {
            assert(self.orders@.take(self.orders@.len() as int) =~= self.orders@);
        }
        r
    }
}

} // verus!
