//! Trader accounts: the cash and the per-instrument balances of one trader.

use vstd::prelude::*;
use crate::order::{TickerSymbol, TraderId};

verus! {

/// One balance per instrument.
#[derive(Debug)]
pub struct AssetBalances {
    pub aapl: usize,
    pub jnj: usize,
}

impl AssetBalances {
    /// The balance kept for `symbol`.
    pub open spec fn spec_index(&self, symbol: TickerSymbol) -> usize {
        match symbol {
            TickerSymbol::AAPL => self.aapl,
            TickerSymbol::JNJ => self.jnj,
        }
    }

    /// Balances of zero for every instrument.
    pub fn new() -> (balances: Self)
        ensures
            forall|symbol: TickerSymbol| balances.spec_index(symbol) == 0,
    {
        Self { aapl: 0, jnj: 0 }
    }

    /// The slot that holds the balance of `symbol`.
    pub fn index_ref(&self, symbol: &TickerSymbol) -> (slot: &usize)
        ensures
            *slot == self.spec_index(*symbol),
    {
        match symbol {
            TickerSymbol::AAPL => &self.aapl,
            TickerSymbol::JNJ => &self.jnj,
        }
    }
}

/// The account of one trader.
#[derive(Debug)]
pub struct TraderAccount {
    pub trader_id: TraderId,
    pub cents_balance: usize,
    // in asset lots
    pub asset_balances: AssetBalances,
    // in cents
    pub outstanding_order_balances: AssetBalances,
}

} // verus!
