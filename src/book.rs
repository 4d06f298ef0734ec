use vstd::prelude::*;

use crate::error::StockError;
use crate::ledger::{ParticipantId, StockId};

verus! {

/// The side of the book an order rests on.
#[derive(Clone, Copy, Debug, PartialEq, Eq, Structural)]
pub enum Side {
    Buy,
    Sell,
}

/// An open limit order. `id` doubles as its arrival sequence number.
#[derive(Clone, Copy, Debug, PartialEq, Eq, Structural)]
pub struct Order {
    pub id: u64,
    pub owner: ParticipantId,
    pub side: Side,
    pub quantity: u64,
    pub price: u64,
}

/// The other side.
pub open spec fn opposite(side: Side) -> Side {
    match side {
        Side::Buy => Side::Sell,
        Side::Sell => Side::Buy,
    }
}

/// Whether `a` is matched before `b` on `side`: better price first (highest
/// bid, lowest ask), earlier arrival first among equal prices.
pub open spec fn ahead(side: Side, a: Order, b: Order) -> bool {
    ||| (side == Side::Buy && a.price > b.price)
    ||| (side == Side::Sell && a.price < b.price)
    ||| (a.price == b.price && a.id < b.id)
}

/// One side of a book: open orders of that side, all with positive quantity
/// and price and an id below `next_id`, distinct ids, in priority order.
pub open spec fn side_wf(s: Seq<Order>, side: Side, next_id: u64) -> bool {
    &&& forall|i: int|
        0 <= i < s.len() ==> {
            &&& (#[trigger] s[i]).side == side
            &&& s[i].quantity > 0
            &&& s[i].price > 0
            &&& s[i].id < next_id
        }
    &&& forall|i: int, j: int| 0 <= i < j < s.len() ==> ahead(side, #[trigger] s[i], #[trigger] s[j])
    &&& forall|i: int, j: int| 0 <= i < s.len() && 0 <= j < s.len() && i != j ==> (#[trigger] s[i]).id != (#[trigger] s[j]).id
}

/// `r` is `s` with `o` placed where its priority puts it.
pub open spec fn placed(s: Seq<Order>, side: Side, o: Order, r: Seq<Order>) -> bool {
    exists|p: int|
        0 <= p <= s.len() && r == s.insert(p, o) && (forall|j: int| 0 <= j < p ==> ahead(side, #[trigger] s[j], o))
            && (forall|j: int| p <= j < s.len() ==> ahead(side, o, #[trigger] s[j]))
}

/// Some order of `s` has this id.
pub open spec fn holds_id(s: Seq<Order>, id: u64) -> bool {
    exists|i: int| 0 <= i < s.len() && (#[trigger] s[i]).id == id
}

/// Position of the order with this id; meaningful where `holds_id(s, id)`.
pub open spec fn index_of(s: Seq<Order>, id: u64) -> int {
    choose|i: int| 0 <= i < s.len() && (#[trigger] s[i]).id == id
}

/// `s` with the order at `i` reduced by `filled`, and dropped where nothing is left.
pub open spec fn reduced(s: Seq<Order>, i: int, filled: u64) -> Seq<Order> {
    if s[i].quantity == filled {
        s.remove(i)
    } else {
        s.update(i, Order { quantity: (s[i].quantity - filled) as u64, ..s[i] })
    }
}

/// Index of the order with this id in `v`, if there is one.
fn find_in(v: &Vec<Order>, id: u64) -> (r: Option<usize>)
    ensures
        r matches Some(i) ==> i < v.len() && v@[i as int].id == id,
        r is None ==> !holds_id(v@, id),
{
    let mut i: usize = 0;
    while i < v.len()
        invariant
            0 <= i <= v.len(),
            forall|j: int| 0 <= j < i ==> (#[trigger] v@[j]).id != id,
        decreases v.len() - i,
    {
        if v[i].id == id {
            return Some(i);
        }
        i = i + 1;
    }
    None
}

proof fn lemma_index_unique(s: Seq<Order>, side: Side, next_id: u64, i: int)
    requires
        side_wf(s, side, next_id),
        0 <= i < s.len(),
    ensures
        holds_id(s, s[i].id),
        index_of(s, s[i].id) == i,
{
    assert(s[i].id == s[i].id);
}

proof fn lemma_remove_keeps(s: Seq<Order>, side: Side, next_id: u64, i: int)
    requires
        side_wf(s, side, next_id),
        0 <= i < s.len(),
    ensures
        side_wf(s.remove(i), side, next_id),
{
    let r = s.remove(i);
    assert forall|a: int, b: int| 0 <= a < b < r.len() implies ahead(side, #[trigger] r[a], #[trigger] r[b]) by {
        let oa = if a < i { a } else { a + 1 };
        let ob = if b < i { b } else { b + 1 };
        assert(r[a] == s[oa] && r[b] == s[ob]);
    }
    assert forall|a: int, b: int| 0 <= a < r.len() && 0 <= b < r.len() && a != b implies (#[trigger] r[a]).id != (#[trigger] r[b]).id by {
        let oa = if a < i { a } else { a + 1 };
        let ob = if b < i { b } else { b + 1 };
        assert(r[a] == s[oa] && r[b] == s[ob]);
    }
}

pub(crate) proof fn lemma_reduced_keeps(s: Seq<Order>, side: Side, next_id: u64, i: int, filled: u64)
    requires
        side_wf(s, side, next_id),
        0 <= i < s.len(),
        filled <= s[i].quantity,
    ensures
        side_wf(reduced(s, i, filled), side, next_id),
{
    if s[i].quantity == filled {
        lemma_remove_keeps(s, side, next_id, i);
    } else {
        let r = reduced(s, i, filled);
        assert forall|a: int, b: int| 0 <= a < b < r.len() implies ahead(side, #[trigger] r[a], #[trigger] r[b]) by {
            assert(ahead(side, s[a], s[b]));
        }
        assert forall|a: int, b: int| 0 <= a < r.len() && 0 <= b < r.len() && a != b implies (#[trigger] r[a]).id != (#[trigger] r[b]).id by {
            assert(s[a].id != s[b].id);
        }
    }
}

/// A bound on the ids of a side may be raised.
pub(crate) proof fn lemma_side_lift(s: Seq<Order>, side: Side, next_id: u64)
    requires
        side_wf(s, side, next_id),
        next_id < u64::MAX,
    ensures
        side_wf(s, side, (next_id + 1) as u64),
{
}

/// Whether `o` has a strictly better price than `c` on `side`.
fn better_price(side: Side, o: Order, c: Order) -> (r: bool)
    ensures
        r == ((side == Side::Buy && o.price > c.price) || (side == Side::Sell && o.price < c.price)),
{
    match side {
        Side::Buy => o.price > c.price,
        Side::Sell => o.price < c.price,
    }
}

/// Places `o`, whose id is above every id of `v`, by priority.
pub(crate) fn insert_by_priority(v: &mut Vec<Order>, side: Side, next_id: u64, o: Order)
    requires
        side_wf(old(v)@, side, next_id),
        o.id == next_id,
        next_id < u64::MAX,
        o.side == side,
        o.quantity > 0,
        o.price > 0,
    ensures
        placed(old(v)@, side, o, final(v)@),
        side_wf(final(v)@, side, (next_id + 1) as u64),
{
    let mut i: usize = 0;
    while i < v.len() && !better_price(side, o, v[i])
        invariant
            0 <= i <= v.len(),
            v@ == old(v)@,
            side_wf(v@, side, next_id),
            o.id == next_id,
            forall|j: int| 0 <= j < i ==> ahead(side, #[trigger] v@[j], o),
        decreases v.len() - i,
    {
        assert(v@[i as int].id < next_id);
        i = i + 1;
    }
    let ghost s = v@;
    assert forall|j: int| i <= j < s.len() implies ahead(side, o, #[trigger] s[j]) by {
        assert(ahead(side, s[i as int], s[j]) || i == j);
    }
    v.insert(i, o);
    let ghost r = v@;
    assert(placed(s, side, o, r));
    assert forall|a: int, b: int| 0 <= a < b < r.len() implies ahead(side, #[trigger] r[a], #[trigger] r[b]) by {
        if a < i && b < i {
            assert(r[a] == s[a] && r[b] == s[b]);
        } else if a < i && b > i {
            assert(r[a] == s[a] && r[b] == s[b - 1]);
        } else if a > i {
            assert(r[a] == s[a - 1] && r[b] == s[b - 1]);
        }
    }
    assert forall|a: int, b: int| 0 <= a < r.len() && 0 <= b < r.len() && a != b implies (#[trigger] r[a]).id != (#[trigger] r[b]).id by {
        let oa = if a < i { a } else { a - 1 };
        let ob = if b < i { b } else { b - 1 };
        if a != i && b != i {
            assert(r[a] == s[oa] && r[b] == s[ob]);
        } else if a == i {
            assert(r[b] == s[ob]);
        } else {
            assert(r[a] == s[oa]);
        }
    }
    assert forall|a: int| 0 <= a < r.len() implies {
        &&& (#[trigger] r[a]).side == side
        &&& r[a].quantity > 0
        &&& r[a].price > 0
        &&& r[a].id < next_id + 1
    } by {
        if a < i {
            assert(r[a] == s[a]);
        } else if a > i {
            assert(r[a] == s[a - 1]);
        }
    }
}

/// The open orders of one stock, bids and asks each in priority order.
pub struct OrderBook {
    pub stock: StockId,
    /// Buy orders, highest price first, earliest first within a price.
    pub bids: Vec<Order>,
    /// Sell orders, lowest price first, earliest first within a price.
    pub asks: Vec<Order>,
    /// Id, and arrival sequence number, of the next order.
    pub next_id: u64,
}

impl OrderBook {
    /// Both sides are well formed under the book's next id.
    pub open spec fn wf(&self) -> bool {
        &&& side_wf(self.bids@, Side::Buy, self.next_id)
        &&& side_wf(self.asks@, Side::Sell, self.next_id)
    }

    /// The orders resting on `side`.
    pub open spec fn side_of(&self, side: Side) -> Seq<Order> {
        match side {
            Side::Buy => self.bids@,
            Side::Sell => self.asks@,
        }
    }

    /// Where the open order `id` rests: its side and its position there.
    pub open spec fn locate(&self, id: u64) -> Option<(Side, int)> {
        if holds_id(self.bids@, id) {
            Some((Side::Buy, index_of(self.bids@, id)))
        } else if holds_id(self.asks@, id) {
            Some((Side::Sell, index_of(self.asks@, id)))
        } else {
            None
        }
    }

    /// `self` and `other` differ at most in the orders resting on `side`.
    pub open spec fn same_but(&self, other: &OrderBook, side: Side) -> bool {
        &&& self.side_of(opposite(side)) == other.side_of(opposite(side))
        &&& self.stock == other.stock
        &&& self.next_id == other.next_id
    }

    /// An empty book for `stock`.
    pub fn new(stock: StockId) -> (r: OrderBook)
        ensures
            r.wf(),
            r.stock == stock,
            r.bids@.len() == 0,
            r.asks@.len() == 0,
            r.next_id == 0,
    {
        OrderBook { stock, bids: Vec::new(), asks: Vec::new(), next_id: 0 }
    }

    /// Rests a new order by priority and returns its id. Fails, changing
    /// nothing, with `InvalidOfferAmount` for a zero quantity, `InvalidPrice`
    /// for a zero price, `ArithmeticOverflow` when ids are exhausted.
    pub fn insert(&mut self, owner: ParticipantId, side: Side, quantity: u64, price: u64) -> (r: Result<u64, StockError>)
        requires
            old(self).wf(),
        ensures
            final(self).wf(),
            quantity == 0 ==> r == Err::<u64, StockError>(StockError::InvalidOfferAmount) && *final(self) == *old(self),
            quantity > 0 && price == 0 ==> r == Err::<u64, StockError>(StockError::InvalidPrice) && *final(self) == *old(self),
            quantity > 0 && price > 0 && old(self).next_id == u64::MAX ==> r == Err::<u64, StockError>(StockError::ArithmeticOverflow)
                && *final(self) == *old(self),
            quantity > 0 && price > 0 && old(self).next_id < u64::MAX ==> {
                &&& r == Ok::<u64, StockError>(old(self).next_id)
                &&& final(self).next_id == old(self).next_id + 1
                &&& placed(old(self).side_of(side), side, Order { id: old(self).next_id, owner, side, quantity, price }, final(self).side_of(side))
                &&& final(self).side_of(opposite(side)) == old(self).side_of(opposite(side))
                &&& final(self).stock == old(self).stock
            },
    {
        if quantity == 0 {
            return Err(StockError::InvalidOfferAmount);
        }
        if price == 0 {
            return Err(StockError::InvalidPrice);
        }
        if self.next_id == u64::MAX {
            return Err(StockError::ArithmeticOverflow);
        }
        let id = self.next_id;
        let o = Order { id, owner, side, quantity, price };
        match side {
            Side::Buy => insert_by_priority(&mut self.bids, side, id, o),
            Side::Sell => insert_by_priority(&mut self.asks, side, id, o),
        }
        self.next_id = id + 1;
        proof {
            lemma_side_lift(old(self).side_of(opposite(side)), opposite(side), id);
        }
        Ok(id)
    }

    /// The first order on the side opposite to `side`, which is the best
    /// priced and, within that price, the earliest.
    pub fn best_opposing(&self, side: Side) -> (r: Option<Order>)
        requires
            self.wf(),
        ensures
            self.side_of(opposite(side)).len() == 0 ==> r is None,
            self.side_of(opposite(side)).len() > 0 ==> r == Some(self.side_of(opposite(side))[0]),
    {
        let v = match side {
            Side::Buy => &self.asks,
            Side::Sell => &self.bids,
        };
        if v.len() == 0 {
            None
        } else {
            Some(v[0])
        }
    }

    /// Takes `filled` units off the open order `id`, dropping it when none
    /// are left. Fails, changing nothing, with `NotFound` for no such order
    /// and `InvalidOfferAmount` where `filled` exceeds its quantity.
    pub fn reduce_or_remove(&mut self, id: u64, filled: u64) -> (r: Result<(), StockError>)
        requires
            old(self).wf(),
        ensures
            final(self).wf(),
            old(self).locate(id) is None ==> r == Err::<(), StockError>(StockError::NotFound) && *final(self) == *old(self),
            old(self).locate(id) matches Some((side, i)) ==> {
                &&& filled > old(self).side_of(side)[i].quantity ==> r == Err::<(), StockError>(StockError::InvalidOfferAmount)
                    && *final(self) == *old(self)
                &&& filled <= old(self).side_of(side)[i].quantity ==> r is Ok
                    && final(self).side_of(side) == reduced(old(self).side_of(side), i, filled)
                    && final(self).same_but(old(self), side)
            },
    {
        let (side, i) = match self.find(id) {
            Some(found) => found,
            None => return Err(StockError::NotFound),
        };
        let q = match side {
            Side::Buy => self.bids[i].quantity,
            Side::Sell => self.asks[i].quantity,
        };
        assert(q == self.side_of(side)[i as int].quantity);
        if filled > q {
            return Err(StockError::InvalidOfferAmount);
        }
        self.take_from(side, i, filled);
        Ok(())
    }

    /// Removes the open order `id` at the request of `requester`. Fails,
    /// changing nothing, with `NotFound` for no such order and `Unauthorized`
    /// where `requester` does not own it.
    pub fn cancel(&mut self, id: u64, requester: ParticipantId) -> (r: Result<(), StockError>)
        requires
            old(self).wf(),
        ensures
            final(self).wf(),
            old(self).locate(id) is None ==> r == Err::<(), StockError>(StockError::NotFound) && *final(self) == *old(self),
            old(self).locate(id) matches Some((side, i)) ==> {
                &&& old(self).side_of(side)[i].owner != requester ==> r == Err::<(), StockError>(StockError::Unauthorized)
                    && *final(self) == *old(self)
                &&& old(self).side_of(side)[i].owner == requester ==> r is Ok
                    && final(self).side_of(side) == old(self).side_of(side).remove(i)
                    && final(self).same_but(old(self), side)
            },
    {
        let (side, i) = match self.find(id) {
            Some(found) => found,
            None => return Err(StockError::NotFound),
        };
        let o = match side {
            Side::Buy => self.bids[i],
            Side::Sell => self.asks[i],
        };
        assert(o == self.side_of(side)[i as int]);
        if o.owner != requester {
            return Err(StockError::Unauthorized);
        }
        self.take_from(side, i, o.quantity);
        assert(self.side_of(side) =~= old(self).side_of(side).remove(i as int));
        Ok(())
    }

    /// Side and position of the open order `id`.
    fn find(&self, id: u64) -> (r: Option<(Side, usize)>)
        requires
            self.wf(),
        ensures
            self.locate(id) is None <==> r is None,
            r matches Some((side, i)) ==> self.locate(id) == Some((side, i as int)) && i < self.side_of(side).len(),
    {
        match find_in(&self.bids, id) {
            Some(i) => {
                proof { lemma_index_unique(self.bids@, Side::Buy, self.next_id, i as int); }
                Some((Side::Buy, i))
            },
            None => match find_in(&self.asks, id) {
                Some(i) => {
                    proof { lemma_index_unique(self.asks@, Side::Sell, self.next_id, i as int); }
                    Some((Side::Sell, i))
                },
                None => None,
            },
        }
    }

    /// Takes `filled` units off the order at `i` on `side`.
    fn take_from(&mut self, side: Side, i: usize, filled: u64)
        requires
            old(self).wf(),
            i < old(self).side_of(side).len(),
            filled <= old(self).side_of(side)[i as int].quantity,
        ensures
            final(self).wf(),
            final(self).side_of(side) == reduced(old(self).side_of(side), i as int, filled),
            final(self).same_but(old(self), side),
    {
        proof { lemma_reduced_keeps(self.side_of(side), side, self.next_id, i as int, filled); }
        match side {
            Side::Buy => reduce_at(&mut self.bids, i, filled),
            Side::Sell => reduce_at(&mut self.asks, i, filled),
        }
    }
}

/// Takes `filled` units off the order at `i`, dropping it when none are left.
pub(crate) fn reduce_at(v: &mut Vec<Order>, i: usize, filled: u64)
    requires
        i < old(v).len(),
        filled <= old(v)@[i as int].quantity,
    ensures
        final(v)@ == reduced(old(v)@, i as int, filled),
{
    let o = v[i];
    if o.quantity == filled {
        v.remove(i);
    } else {
        v.set(i, Order { quantity: o.quantity - filled, ..o });
    }
}

/// The first order of a well-formed side has the best price on that side and
/// is the earliest of the orders at that price.
pub proof fn lemma_first_has_priority(s: Seq<Order>, side: Side, next_id: u64, j: int)
    requires
        side_wf(s, side, next_id),
        0 < j < s.len(),
    ensures
        side == Side::Buy ==> s[0].price >= s[j].price,
        side == Side::Sell ==> s[0].price <= s[j].price,
        s[0].price == s[j].price ==> s[0].id < s[j].id,
{
    assert(ahead(side, s[0], s[j]));
}

} // verus!
