//! The plain values that travel through the book: requests, resting orders
//! and fills.

use vstd::prelude::*;

verus! {

/// A limit price, in whole ticks.
pub type Price = usize;

/// The identity of a trader.
pub type TraderId = u8;

/// The identity of a resting order: the 128 bits of its UUID.
pub type OrderId = u128;

/// The side of an order.
#[derive(Clone, Copy, Debug, PartialEq, Eq, Structural)]
pub enum OrderType {
    Buy,
    Sell,
}

/// The instruments that can be traded.
#[allow(clippy::upper_case_acronyms)]
#[derive(Clone, Copy, Debug, PartialEq, Eq, Structural)]
pub enum TickerSymbol {
    AAPL,
    JNJ,
}

/// An incoming request that has not yet been matched or rested.
#[derive(Clone, Copy, Debug, PartialEq, Eq, Structural)]
pub struct OrderRequest {
    pub amount: i32,
    pub price: Price,
    pub order_type: OrderType,
    pub trader_id: TraderId,
    pub symbol: TickerSymbol,
}

/// An order resting in the book. `amount` is what remains of it.
#[derive(Clone, Copy, Debug, PartialEq, Eq, Structural)]
pub struct Order {
    pub order_id: OrderId,
    pub trader_id: TraderId,
    pub symbol: TickerSymbol,
    pub amount: i32,
    pub price: Price,
    pub order_type: OrderType,
}

/// A trade between an incoming request and one resting order.
#[derive(Clone, Copy, Debug, PartialEq, Eq, Structural)]
pub struct Fill {
    pub sell_trader_id: TraderId,
    pub buy_trader_id: TraderId,
    pub amount: i32,
    pub price: Price,
    pub symbol: TickerSymbol,
    pub trade_time: u8,
}

/// The incoming side of a match, as it is stamped on the fills it causes.
#[derive(Clone, Copy, Debug, PartialEq, Eq, Structural)]
pub struct Taker {
    pub side: OrderType,
    pub trader_id: TraderId,
    pub symbol: TickerSymbol,
}

impl OrderType {
    /// The side an order of this side trades against.
    pub open spec fn opposite(self) -> OrderType {
        match self {
            OrderType::Buy => OrderType::Sell,
            OrderType::Sell => OrderType::Buy,
        }
    }
}

/// The fill that records `amount` traded between `taker` and the resting
/// order `resting`. The trade is priced at the resting order's price.
pub open spec fn fill_between(taker: Taker, resting: Order, amount: int) -> Fill {
    match taker.side {
        OrderType::Sell => Fill {
            sell_trader_id: taker.trader_id,
            buy_trader_id: resting.trader_id,
            amount: amount as i32,
            price: resting.price,
            symbol: taker.symbol,
            trade_time: 1,
        },
        OrderType::Buy => Fill {
            sell_trader_id: resting.trader_id,
            buy_trader_id: taker.trader_id,
            amount: amount as i32,
            price: resting.price,
            symbol: taker.symbol,
            trade_time: 1,
        },
    }
}

/// Builds the fill for `amount` traded between `taker` and `resting`.
pub fn make_fill(taker: Taker, resting: &Order, amount: i32) -> (fill: Fill)
    ensures
        fill == fill_between(taker, *resting, amount as int),
{
    match taker.side {
        OrderType::Sell => Fill {
            sell_trader_id: taker.trader_id,
            buy_trader_id: resting.trader_id,
            amount,
            price: resting.price,
            symbol: taker.symbol,
            trade_time: 1,
        },
        OrderType::Buy => Fill {
            sell_trader_id: resting.trader_id,
            buy_trader_id: taker.trader_id,
            amount,
            price: resting.price,
            symbol: taker.symbol,
            trade_time: 1,
        },
    }
}

} // verus!
