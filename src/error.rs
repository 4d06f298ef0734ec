use vstd::prelude::*;

verus! {

/// Every way in which an operation of the exchange core can be refused.
/// A refused operation changes nothing.
#[derive(Clone, Copy, Debug, PartialEq, Eq, Structural)]
pub enum StockError {
    /// A quantity or amount is zero, exceeds what is left of an order, or an
    /// offer asks for more than the owner holds beyond the offers already open.
    InvalidOfferAmount,
    /// A price is zero.
    InvalidPrice,
    /// The paying participant holds fewer funds than the payment.
    InsufficientFunds,
    /// The delivering participant holds fewer units than the delivery.
    InsufficientStockBalance,
    /// A product or a credited balance does not fit in 64 bits.
    ArithmeticOverflow,
    /// The requester does not own the order or offer.
    Unauthorized,
    /// The participant, stock, order or offer does not exist, or is closed.
    NotFound,
}

} // verus!
