//! Core of a small stock exchange: a ledger of funds and positions, a
//! price-time ordered order book with a matching engine, and a registry of
//! fixed-price offers settled by direct acceptance.

pub mod error;
pub mod ledger;
pub mod book;
pub mod engine;
pub mod offer;
