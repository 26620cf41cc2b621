//! A single-symbol limit order book with price-time priority matching.
//!
//! The book keeps one FIFO queue of resting orders per integer price on each
//! side. An incoming request is crossed against the opposite side, best price
//! first and oldest order first within a price; what is left of it rests on
//! its own side. Every public operation is stated over [`book::BookView`], the
//! mathematical model of the book, and proved against it.

pub mod accounts;
pub mod book;
pub mod ids;
pub mod laws;
pub mod ledger;
pub mod level;
pub mod order;
pub mod sweep;
