use vstd::prelude::*;

use crate::book::{insert_by_priority, lemma_side_lift, opposite, placed, reduce_at, reduced, side_wf, Order, OrderBook, Side};
use crate::error::StockError;
use crate::ledger::{check_move, checked_move, lemma_move_conserves, move_balance, total, Ledger, ParticipantId, Stock};
use crate::offer::{Offer, OfferRegistry, OfferStatus};

verus! {

/// Whether an incoming order on `side` with limit `limit` trades with `resting`.
pub open spec fn crosses(side: Side, limit: u64, resting: Order) -> bool {
    match side {
        Side::Buy => limit >= resting.price,
        Side::Sell => limit <= resting.price,
    }
}

/// Units traded when `remaining` units meet the resting order `r`.
pub open spec fn fill(remaining: u64, r: Order) -> u64 {
    if remaining < r.quantity { remaining } else { r.quantity }
}

/// Balances, opposing orders, units left of the incoming order, and the last
/// trade price, after matching.
pub struct Settled {
    pub funds: Seq<u64>,
    pub row: Seq<u64>,
    pub opposing: Seq<Order>,
    pub remaining: u64,
    pub last_price: u64,
}

/// Matching of an incoming order of `taker` on `side`, for `remaining` units
/// at limit `limit`, against the opposing orders `opp` in priority order.
/// Each match trades at the resting price, the buyer paying `units * price`
/// and the seller delivering the units; the first match that cannot settle
/// fails the whole matching.
pub open spec fn settle(
    funds: Seq<u64>,
    row: Seq<u64>,
    opp: Seq<Order>,
    taker: int,
    side: Side,
    remaining: u64,
    limit: u64,
    last: u64,
) -> Result<Settled, StockError>
    decreases remaining, opp.len(),
{
    if remaining == 0 || opp.len() == 0 || !crosses(side, limit, opp[0]) {
        Ok(Settled { funds, row, opposing: opp, remaining, last_price: last })
    } else {
        let r = opp[0];
        let q = fill(remaining, r);
        let pay = q * r.price;
        let buyer = if side == Side::Buy { taker } else { r.owner as int };
        let seller = if side == Side::Buy { r.owner as int } else { taker };
        if pay > u64::MAX {
            Err(StockError::ArithmeticOverflow)
        } else {
            match checked_move(funds, buyer, seller, pay as nat, StockError::InsufficientFunds) {
                Err(e) => Err(e),
                Ok(f) => match checked_move(row, seller, buyer, q as nat, StockError::InsufficientStockBalance) {
                    Err(e) => Err(e),
                    Ok(w) => settle(f, w, reduced(opp, 0, q), taker, side, (remaining - q) as u64, limit, r.price),
                },
            }
        }
    }
}

/// `o` is an order of `s`, by id, with no more units.
pub open spec fn has_source(o: Order, s: Seq<Order>) -> bool {
    exists|b: int| 0 <= b < s.len() && o.id == (#[trigger] s[b]).id && o.quantity <= s[b].quantity
}

/// Every order of `r` is an order of `s`, by id, with no more units.
pub open spec fn drawn_from(r: Seq<Order>, s: Seq<Order>) -> bool {
    forall|a: int| 0 <= a < r.len() ==> has_source(#[trigger] r[a], s)
}

proof fn lemma_drawn_from_self(s: Seq<Order>)
    ensures
        drawn_from(s, s),
{
    assert forall|a: int| 0 <= a < s.len() implies has_source(#[trigger] s[a], s) by {
        assert(s[a].id == s[a].id);
    }
}

proof fn lemma_drawn_from_reduced(s: Seq<Order>, q: u64)
    requires
        0 < s.len(),
        q <= s[0].quantity,
    ensures
        drawn_from(reduced(s, 0, q), s),
{
    let r = reduced(s, 0, q);
    assert forall|a: int| 0 <= a < r.len() implies has_source(#[trigger] r[a], s) by {
        if s[0].quantity == q {
            assert(r[a] == s[a + 1]);
        } else {
            assert(r[a].id == s[a].id);
        }
    }
}

proof fn lemma_drawn_from_trans(r: Seq<Order>, s: Seq<Order>, t: Seq<Order>)
    requires
        drawn_from(r, s),
        drawn_from(s, t),
    ensures
        drawn_from(r, t),
{
    assert forall|a: int| 0 <= a < r.len() implies has_source(#[trigger] r[a], t) by {
        assert(has_source(r[a], s));
        let c = choose|c: int| 0 <= c < s.len() && r[a].id == (#[trigger] s[c]).id && r[a].quantity <= s[c].quantity;
        assert(has_source(s[c], t));
    }
}

/// Matching keeps the opposing side well formed, keeps only orders it was
/// given with no more units than they had, and moves funds and units
/// without creating or destroying any.
pub proof fn lemma_settle(
    funds: Seq<u64>,
    row: Seq<u64>,
    opp: Seq<Order>,
    taker: int,
    side: Side,
    remaining: u64,
    limit: u64,
    last: u64,
    next_id: u64,
)
    requires
        side_wf(opp, opposite(side), next_id),
        settle(funds, row, opp, taker, side, remaining, limit, last) is Ok,
    ensures
        ({
            let s = settle(funds, row, opp, taker, side, remaining, limit, last)->Ok_0;
            &&& side_wf(s.opposing, opposite(side), next_id)
            &&& drawn_from(s.opposing, opp)
            &&& s.remaining <= remaining
            &&& total(s.funds) == total(funds)
            &&& total(s.row) == total(row)
            &&& s.funds.len() == funds.len()
            &&& s.row.len() == row.len()
        }),
    decreases remaining, opp.len(),
{
    if remaining == 0 || opp.len() == 0 || !crosses(side, limit, opp[0]) {
        lemma_drawn_from_self(opp);
    } else {
        let r = opp[0];
        let q = fill(remaining, r);
        let pay = q * r.price;
        let buyer = if side == Side::Buy { taker } else { r.owner as int };
        let seller = if side == Side::Buy { r.owner as int } else { taker };
        let f = checked_move(funds, buyer, seller, pay as nat, StockError::InsufficientFunds)->Ok_0;
        let w = checked_move(row, seller, buyer, q as nat, StockError::InsufficientStockBalance)->Ok_0;
        let rest = reduced(opp, 0, q);
        lemma_move_conserves(funds, buyer, seller, pay as nat, StockError::InsufficientFunds);
        lemma_move_conserves(row, seller, buyer, q as nat, StockError::InsufficientStockBalance);
        crate::book::lemma_reduced_keeps(opp, opposite(side), next_id, 0, q);
        lemma_settle(f, w, rest, taker, side, (remaining - q) as u64, limit, r.price, next_id);
        lemma_drawn_from_reduced(opp, q);
        let s = settle(funds, row, opp, taker, side, remaining, limit, last)->Ok_0;
        lemma_drawn_from_trans(s.opposing, rest, opp);
    }
}

fn crosses_at(side: Side, limit: u64, resting: Order) -> (r: bool)
    ensures
        r == crosses(side, limit, resting),
{
    match side {
        Side::Buy => limit >= resting.price,
        Side::Sell => limit <= resting.price,
    }
}

fn copy_balances(v: &Vec<u64>) -> (r: Vec<u64>)
    ensures
        r@ == v@,
{
    let mut r: Vec<u64> = Vec::new();
    let mut i: usize = 0;
    while i < v.len()
        invariant
            0 <= i <= v.len(),
            r@ == v@.subrange(0, i as int),
        decreases v.len() - i,
    {
        r.push(v[i]);
        i = i + 1;
        assert(r@ =~= v@.subrange(0, i as int));
    }
    assert(r@ =~= v@);
    r
}

fn copy_orders(v: &Vec<Order>) -> (r: Vec<Order>)
    ensures
        r@ == v@,
{
    let mut r: Vec<Order> = Vec::new();
    let mut i: usize = 0;
    while i < v.len()
        invariant
            0 <= i <= v.len(),
            r@ == v@.subrange(0, i as int),
        decreases v.len() - i,
    {
        r.push(v[i]);
        i = i + 1;
        assert(r@ =~= v@.subrange(0, i as int));
    }
    assert(r@ =~= v@);
    r
}

/// The orders resting on the taker's side after matching left `remaining`
/// units of the incoming order `o`.
pub open spec fn rested(own: Seq<Order>, side: Side, o: Order, remaining: u64, r: Seq<Order>) -> bool {
    if remaining == 0 {
        r == own
    } else {
        placed(own, side, Order { quantity: remaining, ..o }, r)
    }
}

/// Submits an order of `owner` to `book` and matches it against the opposing
/// side by price-time priority, settling each match in `ledger` at the
/// resting price; whatever is left of it rests in the book, and the stock's
/// `current_price` becomes the price of the last match. Returns the id given
/// to the order. Fails, changing nothing, with `InvalidOfferAmount`
/// for a zero quantity, `InvalidPrice` for a zero price, `NotFound` where the
/// book's stock or `owner` is unknown to the ledger, `ArithmeticOverflow`
/// where ids are exhausted, and otherwise with the error of the first match
/// that cannot settle, in which case no match is kept.
pub fn submit_order(
    ledger: &mut Ledger,
    book: &mut OrderBook,
    owner: ParticipantId,
    side: Side,
    quantity: u64,
    price: u64,
) -> (r: Result<u64, StockError>)
    requires
        old(ledger).wf(),
        old(book).wf(),
    ensures
        final(ledger).wf(),
        final(book).wf(),
        final(ledger).stocks.len() == old(ledger).stocks.len(),
        final(ledger).total_funds() == old(ledger).total_funds(),
        forall|k: int| 0 <= k < old(ledger).stocks.len() ==> #[trigger] final(ledger).total_position(k) == old(ledger).total_position(k),
        quantity == 0 ==> r == Err::<u64, StockError>(StockError::InvalidOfferAmount),
        quantity > 0 && price == 0 ==> r == Err::<u64, StockError>(StockError::InvalidPrice),
        quantity > 0 && price > 0 && !(old(ledger).is_stock(old(book).stock as int) && old(ledger).is_participant(owner as int))
            ==> r == Err::<u64, StockError>(StockError::NotFound),
        quantity > 0 && price > 0 && old(ledger).is_stock(old(book).stock as int) && old(ledger).is_participant(owner as int)
            && old(book).next_id == u64::MAX ==> r == Err::<u64, StockError>(StockError::ArithmeticOverflow),
        r is Err ==> *final(ledger) == *old(ledger) && *final(book) == *old(book),
        quantity > 0 && price > 0 && old(ledger).is_stock(old(book).stock as int) && old(ledger).is_participant(owner as int)
            && old(book).next_id < u64::MAX ==> {
            let k = old(book).stock as int;
            match settle(old(ledger).funds@, old(ledger).rows()[k], old(book).side_of(opposite(side)), owner as int, side, quantity, price, old(ledger).stocks[k].current_price) {
                Err(e) => r == Err::<u64, StockError>(e),
                Ok(s) => {
                    &&& r == Ok::<u64, StockError>(old(book).next_id)
                    &&& final(ledger).funds@ == s.funds
                    &&& final(ledger).rows() == old(ledger).rows().update(k, s.row)
                    &&& final(book).side_of(opposite(side)) == s.opposing
                    &&& rested(old(book).side_of(side), side, Order { id: old(book).next_id, owner, side, quantity, price }, s.remaining, final(book).side_of(side))
                    &&& final(book).stock == old(book).stock
                    &&& final(book).next_id == old(book).next_id + 1
                    &&& final(ledger).stocks@ == old(ledger).stocks@.update(k, Stock { current_price: s.last_price, ..old(ledger).stocks[k] })
                },
            }
        },
{
    if quantity == 0 {
        return Err(StockError::InvalidOfferAmount);
    }
    if price == 0 {
        return Err(StockError::InvalidPrice);
    }
    let k = book.stock;
    if k >= ledger.positions.len() || owner >= ledger.funds.len() {
        return Err(StockError::NotFound);
    }
    if book.next_id == u64::MAX {
        return Err(StockError::ArithmeticOverflow);
    }
    let ghost k0 = k as int;
    let ghost outcome = settle(ledger.funds@, ledger.rows()[k0], book.side_of(opposite(side)), owner as int, side, quantity, price, ledger.stocks[k0].current_price);
    let mut funds = copy_balances(&ledger.funds);
    let mut row = copy_balances(&ledger.positions[k]);
    let mut opp = match side {
        Side::Buy => copy_orders(&book.asks),
        Side::Sell => copy_orders(&book.bids),
    };
    assert(row@ == ledger.rows()[k0]);
    let mut remaining = quantity;
    let mut last = ledger.stocks[k].current_price;
    while remaining > 0 && opp.len() > 0 && crosses_at(side, price, opp[0])
        invariant
            settle(funds@, row@, opp@, owner as int, side, remaining, price, last) == outcome,
            side_wf(opp@, opposite(side), book.next_id),
            *ledger == *old(ledger),
            *book == *old(book),
            outcome == settle(old(ledger).funds@, old(ledger).rows()[old(book).stock as int], old(book).side_of(opposite(side)), owner as int, side, quantity, price, old(ledger).stocks[old(book).stock as int].current_price),
            ledger.wf(),
            book.wf(),
            k == book.stock,
            k0 == k,
            k < ledger.positions.len(),
            owner < ledger.funds.len(),
            quantity > 0,
            price > 0,
            book.next_id < u64::MAX,
        decreases remaining, opp.len(),
    {
        let r = opp[0];
        let q = if remaining < r.quantity { remaining } else { r.quantity };
        assert(q == fill(remaining, r));
        let pay = match q.checked_mul(r.price) {
            Some(p) => p,
            None => {
                assert(outcome == Err::<Settled, StockError>(StockError::ArithmeticOverflow));
                return Err(StockError::ArithmeticOverflow);
            },
        };
        let buyer = match side {
            Side::Buy => owner,
            Side::Sell => r.owner,
        };
        let seller = match side {
            Side::Buy => r.owner,
            Side::Sell => owner,
        };
        assert(buyer as int == if side == Side::Buy { owner as int } else { r.owner as int });
        assert(seller as int == if side == Side::Buy { r.owner as int } else { owner as int });
        match move_balance(&mut funds, buyer, seller, pay, StockError::InsufficientFunds) {
            Ok(()) => {},
            Err(e) => {
                assert(outcome == Err::<Settled, StockError>(e));
                return Err(e);
            },
        }
        match move_balance(&mut row, seller, buyer, q, StockError::InsufficientStockBalance) {
            Ok(()) => {},
            Err(e) => {
                assert(outcome == Err::<Settled, StockError>(e));
                return Err(e);
            },
        }
        proof { crate::book::lemma_reduced_keeps(opp@, opposite(side), book.next_id, 0, q); }
        reduce_at(&mut opp, 0, q);
        remaining = remaining - q;
        last = r.price;
    }
    proof {
        lemma_settle(ledger.funds@, ledger.rows()[k0], book.side_of(opposite(side)), owner as int, side, quantity, price, ledger.stocks[k0].current_price, book.next_id);
    }
    let id = book.next_id;
    ledger.funds = funds;
    ledger.positions.set(k, row);
    ledger.stocks[k].current_price = last;
    match side {
        Side::Buy => {
            book.asks = opp;
            if remaining > 0 {
                insert_by_priority(&mut book.bids, side, id, Order { id, owner, side, quantity: remaining, price });
            }
        },
        Side::Sell => {
            book.bids = opp;
            if remaining > 0 {
                insert_by_priority(&mut book.asks, side, id, Order { id, owner, side, quantity: remaining, price });
            }
        },
    }
    book.next_id = id + 1;
    proof {
        assert(ledger.rows() =~= old(ledger).rows().update(k0, outcome->Ok_0.row));
        assert(ledger.stocks@ =~= old(ledger).stocks@.update(k0, Stock { current_price: last, ..old(ledger).stocks[k0] }));
        assert forall|j: int| 0 <= j < ledger.positions.len() implies #[trigger] ledger.positions[j]@.len() == ledger.funds@.len() by {
            assert(ledger.rows()[j] == ledger.positions[j]@);
        }
        assert forall|j: int| 0 <= j < old(ledger).stocks.len() implies #[trigger] ledger.total_position(j) == old(ledger).total_position(j) by {
            assert(ledger.rows()[j] == ledger.positions[j]@);
            assert(old(ledger).rows()[j] == old(ledger).positions[j]@);
        }
        let s = outcome->Ok_0;
        lemma_side_lift(s.opposing, opposite(side), id);
        if s.remaining == 0 {
            lemma_side_lift(old(book).side_of(side), side, id);
        }
    }
    Ok(id)
}

/// Balances after the offer `o` is accepted by `accepter`: the accepter pays
/// `amount * price` to the owner and receives `amount` units from the owner.
pub open spec fn accepted(funds: Seq<u64>, row: Seq<u64>, o: Offer, accepter: int) -> Result<(Seq<u64>, Seq<u64>), StockError> {
    let pay = o.amount * o.price;
    if pay > u64::MAX {
        Err(StockError::ArithmeticOverflow)
    } else {
        match checked_move(funds, accepter, o.owner as int, pay as nat, StockError::InsufficientFunds) {
            Err(e) => Err(e),
            Ok(f) => match checked_move(row, o.owner as int, accepter, o.amount as nat, StockError::InsufficientStockBalance) {
                Err(e) => Err(e),
                Ok(w) => Ok((f, w)),
            },
        }
    }
}

/// Accepts the open offer `id` on behalf of `accepter`: in one step the
/// accepter pays the owner `amount * price`, the owner delivers `amount`
/// units, the offer is consumed, and the stock's `current_price` becomes the
/// offer's price. Fails, changing nothing, with `NotFound`
/// where `id` names no open offer or its stock is unknown to the ledger,
/// `ArithmeticOverflow` where the payment does not fit, and otherwise with
/// the error of the first transfer that cannot be made.
pub fn accept_offer(ledger: &mut Ledger, registry: &mut OfferRegistry, id: usize, accepter: ParticipantId) -> (r: Result<(), StockError>)
    requires
        old(ledger).wf(),
    ensures
        final(ledger).wf(),
        final(ledger).stocks.len() == old(ledger).stocks.len(),
        final(ledger).total_funds() == old(ledger).total_funds(),
        forall|k: int| 0 <= k < old(ledger).stocks.len() ==> #[trigger] final(ledger).total_position(k) == old(ledger).total_position(k),
        r is Err ==> *final(ledger) == *old(ledger) && final(registry).offers@ == old(registry).offers@,
        r is Ok ==> !final(registry).is_open(id as int),
        !old(registry).is_open(id as int) ==> r == Err::<(), StockError>(StockError::NotFound),
        old(registry).is_open(id as int) ==> {
            let o = old(registry).offers[id as int];
            &&& !old(ledger).is_stock(o.stock as int) ==> r == Err::<(), StockError>(StockError::NotFound)
            &&& old(ledger).is_stock(o.stock as int) ==> match accepted(old(ledger).funds@, old(ledger).rows()[o.stock as int], o, accepter as int) {
                Err(e) => r == Err::<(), StockError>(e),
                Ok((f, w)) => {
                    &&& r is Ok
                    &&& final(ledger).funds@ == f
                    &&& final(ledger).rows() == old(ledger).rows().update(o.stock as int, w)
                    &&& final(registry).offers@ == old(registry).offers@.update(id as int, Offer { status: OfferStatus::Consumed, ..o })
                    &&& final(ledger).stocks@ == old(ledger).stocks@.update(o.stock as int, Stock { current_price: o.price, ..old(ledger).stocks[o.stock as int] })
                },
            }
        },
{
    if id >= registry.offers.len() || registry.offers[id].status != OfferStatus::Open {
        return Err(StockError::NotFound);
    }
    let o = registry.offers[id];
    let k = o.stock;
    if k >= ledger.positions.len() {
        return Err(StockError::NotFound);
    }
    let pay = match o.amount.checked_mul(o.price) {
        Some(p) => p,
        None => return Err(StockError::ArithmeticOverflow),
    };
    match check_move(&ledger.funds, accepter, o.owner, pay, StockError::InsufficientFunds) {
        Ok(()) => {},
        Err(e) => return Err(e),
    }
    match check_move(&ledger.positions[k], o.owner, accepter, o.amount, StockError::InsufficientStockBalance) {
        Ok(()) => {},
        Err(e) => return Err(e),
    }
    let paid = ledger.transfer_funds(accepter, o.owner, pay);
    let delivered = ledger.transfer_position(o.owner, accepter, k, o.amount);
    assert(paid is Ok && delivered is Ok);
    registry.offers.set(id, Offer { status: OfferStatus::Consumed, ..o });
    ledger.stocks[k].current_price = o.price;
    proof {
        assert(ledger.stocks@ =~= old(ledger).stocks@.update(k as int, Stock { current_price: o.price, ..old(ledger).stocks[k as int] }));
        assert forall|j: int| 0 <= j < old(ledger).stocks.len() implies #[trigger] ledger.total_position(j) == old(ledger).total_position(j) by {
            if j != k {
                assert(ledger.rows()[j] == old(ledger).rows()[j]);
            }
        }
    }
    Ok(())
}

/// An accepted offer delivers exactly its amount, no more: the owner's
/// units fall and the accepter's rise by `o.amount`, and nobody else's move.
pub proof fn lemma_offer_delivers_amount(funds: Seq<u64>, row: Seq<u64>, o: Offer, accepter: int)
    requires
        accepted(funds, row, o, accepter) is Ok,
        accepter != o.owner,
    ensures
        ({
            let w = accepted(funds, row, o, accepter)->Ok_0.1;
            &&& w[o.owner as int] == row[o.owner as int] - o.amount
            &&& w[accepter] == row[accepter] + o.amount
            &&& forall|p: int| 0 <= p < row.len() && p != accepter && p != o.owner ==> #[trigger] w[p] == row[p]
            &&& w.len() == row.len()
        }),
{
}

/// A match never trades more than is left of either order, so no order is
/// filled beyond its quantity.
pub proof fn lemma_fill_bounded(remaining: u64, r: Order)
    ensures
        fill(remaining, r) <= remaining,
        fill(remaining, r) <= r.quantity,
        fill(remaining, r) == remaining || fill(remaining, r) == r.quantity,
{
}

} // verus!
