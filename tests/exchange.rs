use decentralized_stock_exchange::book::{OrderBook, Side};
use decentralized_stock_exchange::engine::{accept_offer, submit_order};
use decentralized_stock_exchange::error::StockError;
use decentralized_stock_exchange::ledger::Ledger;
use decentralized_stock_exchange::offer::{OfferRegistry, OfferStatus};

fn funds_sum(l: &Ledger) -> u128 {
    l.funds.iter().map(|f| *f as u128).sum()
}

fn position_sum(l: &Ledger, k: usize) -> u128 {
    l.positions[k].iter().map(|p| *p as u128).sum()
}

/// Participant 0 issues a stock of `supply` units; the others hold only funds.
fn market(funds: Vec<u64>, supply: u64) -> (Ledger, usize) {
    let mut l = Ledger::new(funds);
    let k = l.create_stock(0, "Acme".to_string(), "ACM".to_string(), supply, 1).unwrap();
    (l, k)
}

#[test]
fn offer_accepted_moves_funds_and_units() {
    let (mut l, k) = market(vec![0, 20], 5);
    let mut reg = OfferRegistry::new();
    let id = reg.create_offer(&l, 0, k, 5, 3).unwrap();
    assert_eq!(accept_offer(&mut l, &mut reg, id, 1), Ok(()));
    assert_eq!(l.funds_balance(1), 5);
    assert_eq!(l.funds_balance(0), 15);
    assert_eq!(l.position(0, k), 0);
    assert_eq!(l.position(1, k), 5);
    assert_eq!(reg.offers[id].status, OfferStatus::Consumed);
    assert_eq!(l.stocks[k].current_price, 3);
}

#[test]
fn buy_rests_remainder_after_filling_sell() {
    let (mut l, k) = market(vec![0, 5000], 10);
    let mut book = OrderBook::new(k);
    let sell = submit_order(&mut l, &mut book, 0, Side::Sell, 10, 100).unwrap();
    assert_eq!(book.asks.len(), 1);
    let buy = submit_order(&mut l, &mut book, 1, Side::Buy, 15, 100).unwrap();
    assert_ne!(sell, buy);
    assert!(book.asks.is_empty());
    assert_eq!(book.bids.len(), 1);
    assert_eq!(book.bids[0].id, buy);
    assert_eq!(book.bids[0].quantity, 5);
    assert_eq!(book.bids[0].price, 100);
    assert_eq!(l.stocks[k].current_price, 100);
    assert_eq!(l.funds_balance(0), 1000);
    assert_eq!(l.funds_balance(1), 4000);
    assert_eq!(l.position(0, k), 0);
    assert_eq!(l.position(1, k), 10);
}

#[test]
fn equal_prices_fill_in_arrival_order() {
    // One unit each for sellers 0, 1 and 2; participant 3 buys.
    let mut l = Ledger::new(vec![0, 0, 0, 100]);
    let k = l.create_stock(0, "Acme".to_string(), "ACM".to_string(), 3, 1).unwrap();
    l.transfer_position(0, 1, k, 1).unwrap();
    l.transfer_position(0, 2, k, 1).unwrap();
    let mut book = OrderBook::new(k);
    let first = submit_order(&mut l, &mut book, 0, Side::Sell, 1, 10).unwrap();
    let second = submit_order(&mut l, &mut book, 1, Side::Sell, 1, 10).unwrap();
    let third = submit_order(&mut l, &mut book, 2, Side::Sell, 1, 12).unwrap();
    let prices: Vec<u64> = book.asks.iter().map(|o| o.price).collect();
    assert_eq!(prices, vec![10, 10, 12]);
    assert_eq!(book.asks[0].id, first);
    assert_eq!(book.asks[1].id, second);
    submit_order(&mut l, &mut book, 3, Side::Buy, 2, 12).unwrap();
    assert_eq!(book.asks.len(), 1);
    assert_eq!(book.asks[0].id, third);
    assert_eq!(l.funds_balance(0), 10);
    assert_eq!(l.funds_balance(1), 10);
    assert_eq!(l.funds_balance(2), 0);
    assert_eq!(l.position(3, k), 2);
    assert!(book.bids.is_empty());
}

#[test]
fn settlements_conserve_funds_and_units() {
    let (mut l, k) = market(vec![50, 400, 300], 30);
    l.transfer_position(0, 2, k, 10).unwrap();
    let f0 = funds_sum(&l);
    let p0 = position_sum(&l, k);
    let mut book = OrderBook::new(k);
    let mut reg = OfferRegistry::new();
    submit_order(&mut l, &mut book, 0, Side::Sell, 7, 9).unwrap();
    submit_order(&mut l, &mut book, 2, Side::Sell, 4, 8).unwrap();
    submit_order(&mut l, &mut book, 1, Side::Buy, 9, 9).unwrap();
    let id = reg.create_offer(&l, 0, k, 3, 11).unwrap();
    accept_offer(&mut l, &mut reg, id, 2).unwrap();
    assert_eq!(accept_offer(&mut l, &mut reg, id, 1), Err(StockError::NotFound));
    assert_eq!(funds_sum(&l), f0);
    assert_eq!(position_sum(&l, k), p0);
    assert_eq!(l.position(1, k), 9);
}

#[test]
fn failed_match_changes_nothing() {
    let (mut l, k) = market(vec![0, 150], 10);
    let mut book = OrderBook::new(k);
    submit_order(&mut l, &mut book, 0, Side::Sell, 1, 100).unwrap();
    submit_order(&mut l, &mut book, 0, Side::Sell, 5, 100).unwrap();
    let asks = book.asks.clone();
    let funds = l.funds.clone();
    let positions = l.positions.clone();
    // The first match (1 unit) is affordable, the second is not.
    assert_eq!(submit_order(&mut l, &mut book, 1, Side::Buy, 3, 100), Err(StockError::InsufficientFunds));
    assert_eq!(book.asks, asks);
    assert!(book.bids.is_empty());
    assert_eq!(l.funds, funds);
    assert_eq!(l.positions, positions);
    assert_eq!(book.next_id, 2);
}

#[test]
fn failed_offer_acceptance_changes_nothing() {
    let (mut l, k) = market(vec![0, 14], 5);
    let mut reg = OfferRegistry::new();
    let id = reg.create_offer(&l, 0, k, 5, 3).unwrap();
    assert_eq!(accept_offer(&mut l, &mut reg, id, 1), Err(StockError::InsufficientFunds));
    assert_eq!(reg.offers[id].status, OfferStatus::Open);
    assert_eq!(l.funds, vec![0, 14]);
    assert_eq!(l.positions[k], vec![5, 0]);
}

#[test]
fn seller_without_units_fails_the_match() {
    let (mut l, k) = market(vec![0, 1000, 0], 10);
    let mut book = OrderBook::new(k);
    // Participant 2 holds no units but rests a sell order.
    submit_order(&mut l, &mut book, 2, Side::Sell, 3, 10).unwrap();
    assert_eq!(submit_order(&mut l, &mut book, 1, Side::Buy, 3, 10), Err(StockError::InsufficientStockBalance));
    assert_eq!(book.asks.len(), 1);
    assert_eq!(l.funds_balance(1), 1000);
}

#[test]
fn closed_offer_stays_closed() {
    let (mut l, k) = market(vec![0, 100], 5);
    let mut reg = OfferRegistry::new();
    let id = reg.create_offer(&l, 0, k, 2, 3).unwrap();
    assert_eq!(reg.cancel_offer(id, 0), Ok(()));
    assert_eq!(reg.offers[id].status, OfferStatus::Cancelled);
    for _ in 0..3 {
        assert_eq!(reg.cancel_offer(id, 0), Err(StockError::NotFound));
        assert_eq!(accept_offer(&mut l, &mut reg, id, 1), Err(StockError::NotFound));
    }
    assert_eq!(reg.offers[id].status, OfferStatus::Cancelled);
    assert_eq!(l.funds, vec![0, 100]);
    assert_eq!(l.positions[k], vec![5, 0]);
}

#[test]
fn cancelled_order_stays_cancelled() {
    let mut book = OrderBook::new(0);
    let id = book.insert(4, Side::Buy, 2, 7).unwrap();
    assert_eq!(book.cancel(id, 3), Err(StockError::Unauthorized));
    assert_eq!(book.cancel(id, 4), Ok(()));
    assert!(book.bids.is_empty());
    assert_eq!(book.cancel(id, 4), Err(StockError::NotFound));
    assert_eq!(book.reduce_or_remove(id, 1), Err(StockError::NotFound));
}

#[test]
fn offer_creation_checks_amounts_and_holdings() {
    let (l, k) = market(vec![0, 100], 5);
    let mut reg = OfferRegistry::new();
    assert_eq!(reg.create_offer(&l, 0, k, 0, 3), Err(StockError::InvalidOfferAmount));
    assert_eq!(reg.create_offer(&l, 0, k, 2, 0), Err(StockError::InvalidOfferAmount));
    assert_eq!(reg.create_offer(&l, 0, k, 6, 1), Err(StockError::InvalidOfferAmount));
    assert_eq!(reg.create_offer(&l, 7, k, 1, 1), Err(StockError::NotFound));
    assert_eq!(reg.create_offer(&l, 0, 3, 1, 1), Err(StockError::NotFound));
    assert_eq!(reg.create_offer(&l, 0, k, 3, 1), Ok(0));
    // Three units are already promised; five are held.
    assert_eq!(reg.create_offer(&l, 0, k, 3, 1), Err(StockError::InvalidOfferAmount));
    assert_eq!(reg.create_offer(&l, 0, k, 2, 1), Ok(1));
    assert_eq!(reg.cancel_offer(0, 0), Ok(()));
    assert_eq!(reg.create_offer(&l, 0, k, 3, 1), Ok(2));
    assert_eq!(reg.offers.len(), 3);
}

#[test]
fn offer_payment_overflow_is_refused() {
    let (mut l, k) = market(vec![0, u64::MAX], u64::MAX);
    let mut reg = OfferRegistry::new();
    let id = reg.create_offer(&l, 0, k, u64::MAX, 2).unwrap();
    assert_eq!(accept_offer(&mut l, &mut reg, id, 1), Err(StockError::ArithmeticOverflow));
    assert_eq!(reg.offers[id].status, OfferStatus::Open);
}

#[test]
fn cancel_offer_by_stranger_is_refused() {
    let (l, k) = market(vec![0, 100], 5);
    let mut reg = OfferRegistry::new();
    let id = reg.create_offer(&l, 0, k, 2, 3).unwrap();
    assert_eq!(reg.cancel_offer(id, 1), Err(StockError::Unauthorized));
    assert_eq!(reg.offers[id].status, OfferStatus::Open);
    assert_eq!(reg.cancel_offer(9, 0), Err(StockError::NotFound));
}

#[test]
fn order_validation_errors() {
    let (mut l, k) = market(vec![0, 100], 5);
    let mut book = OrderBook::new(k);
    assert_eq!(submit_order(&mut l, &mut book, 1, Side::Buy, 0, 5), Err(StockError::InvalidOfferAmount));
    assert_eq!(submit_order(&mut l, &mut book, 1, Side::Buy, 1, 0), Err(StockError::InvalidPrice));
    assert_eq!(submit_order(&mut l, &mut book, 9, Side::Buy, 1, 5), Err(StockError::NotFound));
    let mut other = OrderBook::new(4);
    assert_eq!(submit_order(&mut l, &mut other, 1, Side::Buy, 1, 5), Err(StockError::NotFound));
    assert_eq!(book.next_id, 0);
}

#[test]
fn order_ids_exhausted() {
    let (mut l, k) = market(vec![0, 100], 5);
    let mut book = OrderBook::new(k);
    book.next_id = u64::MAX;
    assert_eq!(submit_order(&mut l, &mut book, 1, Side::Buy, 1, 5), Err(StockError::ArithmeticOverflow));
    assert_eq!(book.insert(1, Side::Buy, 1, 5), Err(StockError::ArithmeticOverflow));
}

#[test]
fn trade_payment_overflow_is_refused() {
    let (mut l, k) = market(vec![0, 100], 5);
    let mut book = OrderBook::new(k);
    submit_order(&mut l, &mut book, 0, Side::Sell, 5, u64::MAX).unwrap();
    assert_eq!(submit_order(&mut l, &mut book, 1, Side::Buy, 2, u64::MAX), Err(StockError::ArithmeticOverflow));
    assert_eq!(book.asks[0].quantity, 5);
}

#[test]
fn bids_order_by_price_then_arrival() {
    let mut book = OrderBook::new(0);
    let a = book.insert(1, Side::Buy, 1, 10).unwrap();
    let b = book.insert(2, Side::Buy, 1, 12).unwrap();
    let c = book.insert(3, Side::Buy, 1, 10).unwrap();
    let d = book.insert(4, Side::Buy, 1, 11).unwrap();
    let ids: Vec<u64> = book.bids.iter().map(|o| o.id).collect();
    assert_eq!(ids, vec![b, d, a, c]);
    assert_eq!(book.best_opposing(Side::Sell).unwrap().id, b);
    assert!(book.best_opposing(Side::Buy).is_none());
    assert_eq!(book.insert(1, Side::Sell, 0, 10), Err(StockError::InvalidOfferAmount));
    assert_eq!(book.insert(1, Side::Sell, 1, 0), Err(StockError::InvalidPrice));
}

#[test]
fn sell_order_matches_best_bid_at_bid_price() {
    let (mut l, k) = market(vec![0, 1000, 1000], 10);
    let mut book = OrderBook::new(k);
    submit_order(&mut l, &mut book, 1, Side::Buy, 2, 20).unwrap();
    submit_order(&mut l, &mut book, 2, Side::Buy, 2, 25).unwrap();
    submit_order(&mut l, &mut book, 0, Side::Sell, 3, 18).unwrap();
    // Two units at 25 to participant 2, then one at 20 to participant 1.
    assert_eq!(l.funds_balance(0), 70);
    assert_eq!(l.position(2, k), 2);
    assert_eq!(l.position(1, k), 1);
    assert_eq!(book.bids.len(), 1);
    assert_eq!(book.bids[0].quantity, 1);
    assert!(book.asks.is_empty());
    assert_eq!(l.stocks[k].current_price, 20);
}

#[test]
fn non_crossing_order_rests() {
    let (mut l, k) = market(vec![0, 1000], 10);
    let mut book = OrderBook::new(k);
    submit_order(&mut l, &mut book, 0, Side::Sell, 3, 30).unwrap();
    submit_order(&mut l, &mut book, 1, Side::Buy, 3, 29).unwrap();
    assert_eq!(book.asks.len(), 1);
    assert_eq!(book.bids.len(), 1);
    assert_eq!(l.funds_balance(1), 1000);
    assert_eq!(l.stocks[k].current_price, 1);
}

#[test]
fn fills_never_exceed_order_quantity() {
    let (mut l, k) = market(vec![0, 10_000], 20);
    let mut book = OrderBook::new(k);
    let sell = submit_order(&mut l, &mut book, 0, Side::Sell, 10, 7).unwrap();
    submit_order(&mut l, &mut book, 1, Side::Buy, 4, 7).unwrap();
    assert_eq!(book.asks[0].id, sell);
    assert_eq!(book.asks[0].quantity, 6);
    submit_order(&mut l, &mut book, 1, Side::Buy, 10, 7).unwrap();
    // Only the six units left of the sell order trade; four rest as a bid.
    assert!(book.asks.is_empty());
    assert_eq!(book.bids[0].quantity, 4);
    assert_eq!(l.position(1, k), 10);
    assert_eq!(l.position(0, k), 10);
    assert_eq!(l.funds_balance(0), 70);
}

#[test]
fn reduce_or_remove_partial_full_and_excess() {
    let mut book = OrderBook::new(0);
    let id = book.insert(1, Side::Sell, 5, 9).unwrap();
    assert_eq!(book.reduce_or_remove(id, 6), Err(StockError::InvalidOfferAmount));
    assert_eq!(book.reduce_or_remove(id, 2), Ok(()));
    assert_eq!(book.asks[0].quantity, 3);
    assert_eq!(book.reduce_or_remove(id, 3), Ok(()));
    assert!(book.asks.is_empty());
}

#[test]
fn ledger_transfers_and_errors() {
    let (mut l, k) = market(vec![10, u64::MAX - 1], 4);
    assert_eq!(l.transfer_funds(0, 1, 11), Err(StockError::InsufficientFunds));
    assert_eq!(l.transfer_funds(0, 1, 2), Err(StockError::ArithmeticOverflow));
    assert_eq!(l.transfer_funds(0, 5, 1), Err(StockError::NotFound));
    assert_eq!(l.transfer_funds(0, 1, 1), Ok(()));
    assert_eq!(l.funds, vec![9, u64::MAX]);
    assert_eq!(l.transfer_funds(1, 1, 5), Ok(()));
    assert_eq!(l.funds_balance(1), u64::MAX);
    assert_eq!(l.transfer_position(1, 0, k, 1), Err(StockError::InsufficientStockBalance));
    assert_eq!(l.transfer_position(0, 1, 3, 1), Err(StockError::NotFound));
    assert_eq!(l.transfer_position(0, 1, k, 3), Ok(()));
    assert_eq!(l.positions[k], vec![1, 3]);
    assert_eq!(l.position(7, k), 0);
    assert_eq!(l.funds_balance(7), 0);
}

#[test]
fn new_participant_starts_with_no_units() {
    let (mut l, k) = market(vec![5], 8);
    let p = l.add_participant(40);
    assert_eq!(p, 1);
    assert_eq!(l.funds, vec![5, 40]);
    assert_eq!(l.positions[k], vec![8, 0]);
    assert_eq!(l.create_stock(9, "X".to_string(), "X".to_string(), 1, 1).unwrap_err(), StockError::NotFound);
    assert_eq!(l.stocks[k].symbol, "ACM");
    assert_eq!(l.stocks[k].owner, 0);
}
