use vstd::prelude::*;

use crate::error::StockError;
use crate::ledger::{Ledger, ParticipantId, StockId};

verus! {

/// Where an offer stands in its lifecycle; only `Open` ever changes.
#[derive(Clone, Copy, Debug, PartialEq, Eq, Structural)]
pub enum OfferStatus {
    Open,
    Consumed,
    Cancelled,
}

/// An owner's offer to sell `amount` units of `stock` at `price` each, all
/// or nothing, to whoever accepts it first.
#[derive(Clone, Copy, Debug, PartialEq, Eq, Structural)]
pub struct Offer {
    pub stock: StockId,
    pub amount: u64,
    pub price: u64,
    pub owner: ParticipantId,
    pub status: OfferStatus,
}

/// Units that `owner` has promised in open offers on `stock`.
pub open spec fn reserved(offers: Seq<Offer>, owner: int, stock: int) -> int
    decreases offers.len(),
{
    if offers.len() == 0 {
        0
    } else {
        let o = offers.last();
        reserved(offers.drop_last(), owner, stock) + if o.status == OfferStatus::Open && o.owner == owner
            && o.stock == stock {
            o.amount as int
        } else {
            0
        }
    }
}

proof fn lemma_reserved_grows(offers: Seq<Offer>, owner: int, stock: int, i: int, j: int)
    requires
        0 <= i <= j <= offers.len(),
    ensures
        reserved(offers.subrange(0, i), owner, stock) <= reserved(offers.subrange(0, j), owner, stock),
    decreases j - i,
{
    if i < j {
        lemma_reserved_grows(offers, owner, stock, i, j - 1);
        assert(offers.subrange(0, j).drop_last() =~= offers.subrange(0, j - 1));
    }
}

/// Offers by id; an offer's id is its position, and closed offers stay.
pub struct OfferRegistry {
    pub offers: Vec<Offer>,
}

impl OfferRegistry {
    pub fn new() -> (r: OfferRegistry)
        ensures
            r.offers@.len() == 0,
    {
        OfferRegistry { offers: Vec::new() }
    }

    /// Whether `id` names an open offer.
    pub open spec fn is_open(&self, id: int) -> bool {
        0 <= id < self.offers.len() && self.offers[id].status == OfferStatus::Open
    }

    /// Opens an offer of `owner` to sell `amount` units of `stock` at
    /// `price` each, and returns its id. Fails, changing nothing, with
    /// `InvalidOfferAmount` for a zero amount or price, `NotFound` where the
    /// stock or owner is unknown, and `InvalidOfferAmount` where the owner
    /// holds fewer units than this offer and its open offers on the stock.
    pub fn create_offer(&mut self, ledger: &Ledger, owner: ParticipantId, stock: StockId, amount: u64, price: u64) -> (r: Result<usize, StockError>)
        requires
            ledger.wf(),
        ensures
            amount == 0 || price == 0 ==> r == Err::<usize, StockError>(StockError::InvalidOfferAmount),
            amount > 0 && price > 0 && !(ledger.is_stock(stock as int) && ledger.is_participant(owner as int)) ==> r == Err::<usize, StockError>(StockError::NotFound),
            amount > 0 && price > 0 && ledger.is_stock(stock as int) && ledger.is_participant(owner as int) ==> {
                &&& reserved(old(self).offers@, owner as int, stock as int) + amount > ledger.position_of(owner as int, stock as int)
                    ==> r == Err::<usize, StockError>(StockError::InvalidOfferAmount)
                &&& reserved(old(self).offers@, owner as int, stock as int) + amount <= ledger.position_of(owner as int, stock as int)
                    ==> r == Ok::<usize, StockError>(old(self).offers.len()) && final(self).offers@ == old(self).offers@.push(
                    Offer { stock, amount, price, owner, status: OfferStatus::Open })
            },
            r is Err ==> final(self).offers@ == old(self).offers@,
    {
        if amount == 0 || price == 0 {
            return Err(StockError::InvalidOfferAmount);
        }
        if stock >= ledger.positions.len() || owner >= ledger.funds.len() {
            return Err(StockError::NotFound);
        }
        let held = ledger.positions[stock][owner];
        assert(held == ledger.position_of(owner as int, stock as int));
        let ghost all = self.offers@;
        let mut acc: u64 = 0;
        let mut i: usize = 0;
        while i < self.offers.len()
            invariant
                0 <= i <= self.offers.len(),
                self.offers@ == all,
                all == old(self).offers@,
                acc as int == reserved(all.subrange(0, i as int), owner as int, stock as int),
                acc <= held,
                amount > 0,
                price > 0,
                ledger.wf(),
                ledger.is_stock(stock as int),
                ledger.is_participant(owner as int),
                held == ledger.position_of(owner as int, stock as int),
            decreases self.offers.len() - i,
        {
            let o = self.offers[i];
            proof {
                assert(all.subrange(0, i + 1).drop_last() =~= all.subrange(0, i as int));
            }
            if o.status == OfferStatus::Open && o.owner == owner && o.stock == stock {
                if o.amount > held - acc {
                    proof {
                        lemma_reserved_grows(all, owner as int, stock as int, i + 1, all.len() as int);
                        assert(all.subrange(0, all.len() as int) =~= all);
                    }
                    return Err(StockError::InvalidOfferAmount);
                }
                acc = acc + o.amount;
            }
            i = i + 1;
        }
        proof {
            assert(all.subrange(0, all.len() as int) =~= all);
        }
        if amount > held - acc {
            return Err(StockError::InvalidOfferAmount);
        }
        let id = self.offers.len();
        self.offers.push(Offer { stock, amount, price, owner, status: OfferStatus::Open });
        Ok(id)
    }

    /// Closes the open offer `id` at the request of its owner, without any
    /// transfer. Fails, changing nothing, with `NotFound` where `id` names no
    /// open offer and `Unauthorized` where `requester` does not own it.
    pub fn cancel_offer(&mut self, id: usize, requester: ParticipantId) -> (r: Result<(), StockError>)
        ensures
            !old(self).is_open(id as int) ==> r == Err::<(), StockError>(StockError::NotFound),
            old(self).is_open(id as int) && old(self).offers[id as int].owner != requester ==> r == Err::<(), StockError>(StockError::Unauthorized),
            old(self).is_open(id as int) && old(self).offers[id as int].owner == requester ==> r is Ok
                && final(self).offers@ == old(self).offers@.update(id as int, Offer { status: OfferStatus::Cancelled, ..old(self).offers[id as int] }),
            r is Err ==> final(self).offers@ == old(self).offers@,
            r is Ok ==> !final(self).is_open(id as int),
    {
        if id >= self.offers.len() || self.offers[id].status != OfferStatus::Open {
            return Err(StockError::NotFound);
        }
        let o = self.offers[id];
        if o.owner != requester {
            return Err(StockError::Unauthorized);
        }
        self.offers.set(id, Offer { status: OfferStatus::Cancelled, ..o });
        Ok(())
    }
}

} // verus!
