//! The order book: a ladder of bids, a ladder of asks, and the best price of
//! each, with order entry, cancellation and inspection.

use vstd::prelude::*;
use crate::ids::{fresh_order_id, is_random_uuid};
use crate::level::{LimitLevel, lemma_match_queue, match_queue, queue_ok, queue_total};
use crate::order::{Fill, Order, OrderId, OrderRequest, OrderType, Price, Taker, TickerSymbol};
use crate::sweep::{Sweep, ladder_ok, ladder_view, lemma_sweep_nothing, lemma_sweep_skip, sweep};

verus! {

/// The mathematical model of a book: the two ladders as sequences of queues,
/// level `i` holding the orders priced at `min_price + i`.
#[verifier::ext_equal]
pub struct BookView {
    pub symbol: TickerSymbol,
    pub min_price: int,
    pub bids: Seq<Seq<Order>>,
    pub asks: Seq<Seq<Order>>,
}

impl BookView {
    /// The book for `symbol` with `levels` empty price levels from
    /// `min_price` upward.
    pub open spec fn empty(symbol: TickerSymbol, min_price: int, levels: int) -> BookView {
        BookView {
            symbol,
            min_price,
            bids: Seq::new(levels as nat, |i: int| Seq::empty()),
            asks: Seq::new(levels as nat, |i: int| Seq::empty()),
        }
    }

    /// The number of price levels.
    pub open spec fn levels(self) -> int {
        self.bids.len() as int
    }

    /// The first price above the book's range.
    pub open spec fn max_price(self) -> int {
        self.min_price + self.levels()
    }

    /// `price` lies in the book's range.
    pub open spec fn in_range(self, price: int) -> bool {
        self.min_price <= price < self.max_price()
    }

    /// The ladder on which orders of `side` rest.
    pub open spec fn ladder(self, side: OrderType) -> Seq<Seq<Order>> {
        match side {
            OrderType::Buy => self.bids,
            OrderType::Sell => self.asks,
        }
    }

    /// The queue of the orders of `side` resting at `price`.
    pub open spec fn queue_at(self, side: OrderType, price: int) -> Seq<Order> {
        self.ladder(side)[price - self.min_price]
    }

    /// No bid rests at or above an ask.
    pub open spec fn uncrossed(self) -> bool {
        forall|i: int, j: int|
            0 <= i < self.bids.len() && 0 <= j < self.asks.len() && (#[trigger] self.bids[i]).len() > 0 && (
            #[trigger] self.asks[j]).len() > 0 ==> i < j
    }

    /// The two ladders cover the same prices, every queue holds only live
    /// orders of its side and price, and the book is not crossed.
    pub open spec fn wf(self) -> bool {
        &&& 0 <= self.min_price
        &&& self.asks.len() == self.bids.len()
        &&& ladder_ok(self.bids, self.min_price, OrderType::Buy)
        &&& ladder_ok(self.asks, self.min_price, OrderType::Sell)
        &&& self.uncrossed()
    }

    /// `price` is the highest price at which a bid rests.
    pub open spec fn is_best_bid(self, price: int) -> bool {
        &&& self.in_range(price)
        &&& self.bids[price - self.min_price].len() > 0
        &&& forall|i: int| price - self.min_price < i < self.bids.len() ==> (#[trigger] self.bids[i]).len() == 0
    }

    /// `price` is the lowest price at which an ask rests.
    pub open spec fn is_best_ask(self, price: int) -> bool {
        &&& self.in_range(price)
        &&& self.asks[price - self.min_price].len() > 0
        &&& forall|i: int| 0 <= i < price - self.min_price ==> (#[trigger] self.asks[i]).len() == 0
    }

    /// No bid rests in the book.
    pub open spec fn no_bids(self) -> bool {
        forall|i: int| 0 <= i < self.bids.len() ==> (#[trigger] self.bids[i]).len() == 0
    }

    /// No ask rests in the book.
    pub open spec fn no_asks(self) -> bool {
        forall|i: int| 0 <= i < self.asks.len() ==> (#[trigger] self.asks[i]).len() == 0
    }

    /// `best` is the best bid: the highest price with a resting bid, or
    /// `None` exactly when no bid rests.
    pub open spec fn best_bid_is(self, best: Option<Price>) -> bool {
        match best {
            Some(price) => self.is_best_bid(price as int),
            None => self.no_bids(),
        }
    }

    /// `best` is the best ask: the lowest price with a resting ask, or
    /// `None` exactly when no ask rests.
    pub open spec fn best_ask_is(self, best: Option<Price>) -> bool {
        match best {
            Some(price) => self.is_best_ask(price as int),
            None => self.no_asks(),
        }
    }

    /// The book takes `request`: its price is in range and it asks for a
    /// positive amount.
    pub open spec fn accepts(self, request: OrderRequest) -> bool {
        self.in_range(request.price as int) && request.amount > 0
    }

    /// `request` as the taker of the fills it causes in this book.
    pub open spec fn taker(self, request: OrderRequest) -> Taker {
        Taker { side: request.order_type, trader_id: request.trader_id, symbol: self.symbol }
    }

    /// The sweep that `request` makes of the opposite ladder. A sell visits
    /// the bids from the highest price down to its limit; a buy visits the
    /// asks from the lowest price up to its limit.
    pub open spec fn matched(self, request: OrderRequest) -> Sweep {
        let limit = request.price - self.min_price;
        match request.order_type {
            OrderType::Sell => sweep(
                self.bids,
                self.taker(request),
                self.levels() - 1,
                self.levels() - limit,
                request.amount as int,
            ),
            OrderType::Buy => sweep(self.asks, self.taker(request), 0, limit + 1, request.amount as int),
        }
    }

    /// The order that `request` becomes when it rests under identity `id`.
    pub open spec fn resting(request: OrderRequest, id: OrderId) -> Order {
        Order {
            order_id: id,
            trader_id: request.trader_id,
            symbol: request.symbol,
            amount: request.amount,
            price: request.price,
            order_type: request.order_type,
        }
    }

    /// `request` can rest without crossing the book: no order of the other
    /// side rests at a price at which the two would trade.
    pub open spec fn can_rest(self, request: OrderRequest) -> bool {
        let limit = request.price - self.min_price;
        match request.order_type {
            OrderType::Sell => forall|i: int| limit <= i < self.bids.len() ==> (#[trigger] self.bids[i]).len() == 0,
            OrderType::Buy => forall|i: int| 0 <= i <= limit ==> (#[trigger] self.asks[i]).len() == 0,
        }
    }

    /// The book after `request` has come to rest under identity `id`, at the
    /// back of the queue at its price on its own side.
    pub open spec fn rested(self, request: OrderRequest, id: OrderId) -> BookView {
        let limit = request.price - self.min_price;
        let order = Self::resting(request, id);
        match request.order_type {
            OrderType::Buy => BookView { bids: self.bids.update(limit, self.bids[limit].push(order)), ..self },
            OrderType::Sell => BookView { asks: self.asks.update(limit, self.asks[limit].push(order)), ..self },
        }
    }

    /// The book after the sweep of `request`, before anything rests.
    pub open spec fn swept(self, request: OrderRequest) -> BookView {
        match request.order_type {
            OrderType::Sell => BookView { bids: self.matched(request).ladder, ..self },
            OrderType::Buy => BookView { asks: self.matched(request).ladder, ..self },
        }
    }

    /// The book after `request` has been submitted. The opposite ladder is
    /// swept; if anything is left of the request, the rest comes to rest
    /// under the identity `id`.
    pub open spec fn submitted(self, request: OrderRequest, id: Option<OrderId>) -> BookView {
        let rest = self.matched(request).rest;
        if rest > 0 {
            self.swept(request).rested(OrderRequest { amount: rest as i32, ..request }, id.unwrap())
        } else {
            self.swept(request)
        }
    }

    /// The book after the order at position `index` of the queue of `side`
    /// at `price` has been taken out.
    pub open spec fn cancelled(self, side: OrderType, price: int, index: int) -> BookView {
        let level = price - self.min_price;
        match side {
            OrderType::Buy => BookView { bids: self.bids.update(level, self.bids[level].remove(index)), ..self },
            OrderType::Sell => BookView { asks: self.asks.update(level, self.asks[level].remove(index)), ..self },
        }
    }
}

/// The position of the first order of `q` with identity `id`, or the length
/// of `q` if it holds none.
pub open spec fn position_of(q: Seq<Order>, id: OrderId) -> int
    decreases q.len(),
{
    if q.len() == 0 || q[0].order_id == id {
        0
    } else {
        1 + position_of(q.drop_first(), id)
    }
}

/// `position_of` is the least index at which `id` occurs.
pub proof fn lemma_position_of(q: Seq<Order>, id: OrderId)
    ensures
        0 <= position_of(q, id) <= q.len(),
        position_of(q, id) < q.len() ==> q[position_of(q, id)].order_id == id,
        forall|i: int| 0 <= i < position_of(q, id) ==> (#[trigger] q[i]).order_id != id,
    decreases q.len(),
{
    if q.len() == 0 || q[0].order_id == id {
    } else {
        lemma_position_of(q.drop_first(), id);
        assert forall|i: int| 0 <= i < position_of(q, id) implies (#[trigger] q[i]).order_id != id by {
            if i > 0 {
                assert(q[i] == q.drop_first()[i - 1]);
            }
        }
    }
}

/// The outstanding quantity on both sides of one price.
#[derive(Clone, Copy, Debug, PartialEq, Eq, Structural)]
pub struct LevelState {
    pub price: Price,
    pub outstanding_sell_orders: u128,
    pub outstanding_buy_orders: u128,
}

/// A double-sided order book for one instrument over the prices
/// `min_price <= p < max_price`.
#[derive(Debug)]
pub struct OrderBook {
    symbol: TickerSymbol,
    min_price: Price,
    // buy side in increasing price order
    buy_side_limit_levels: Vec<LimitLevel>,
    // sell side in increasing price order
    sell_side_limit_levels: Vec<LimitLevel>,
    current_high_buy_price: Option<Price>,
    current_low_sell_price: Option<Price>,
}

/// A ladder of empty levels for the prices `min_price <= p < max_price`.
fn empty_ladder(min_price: Price, max_price: Price) -> (levels: Vec<LimitLevel>)
    ensures
        levels@.len() == if max_price >= min_price { max_price - min_price } else { 0 },
        forall|i: int| 0 <= i < levels@.len() ==> (#[trigger] levels@[i]).price == min_price + i,
        forall|i: int| 0 <= i < levels@.len() ==> (#[trigger] levels@[i]).orders@.len() == 0,
{
    let mut levels: Vec<LimitLevel> = Vec::new();
    let mut price: usize = min_price;
    while price < max_price
        invariant
            min_price <= price,
            price <= max_price || levels@.len() == 0,
            levels@.len() == price - min_price,
            forall|i: int| 0 <= i < levels@.len() ==> (#[trigger] levels@[i]).price == min_price + i,
            forall|i: int| 0 <= i < levels@.len() ==> (#[trigger] levels@[i]).orders@.len() == 0,
        decreases max_price - price,
    {
        levels.push(LimitLevel { price, orders: Vec::new() });
        price = price + 1;
    }
    levels
}

/// Creates an empty book for `symbol` over the prices
/// `min_price <= p < max_price`. If `max_price` is not above `min_price`
/// the book has no level and accepts no request.
pub fn quickstart_order_book(symbol: TickerSymbol, min_price: Price, max_price: Price) -> (book: OrderBook)
    ensures
        book.wf(),
        book@ == BookView::empty(
            symbol,
            min_price as int,
            if max_price >= min_price { max_price - min_price } else { 0 },
        ),
        book.spec_best_bid() is None,
        book.spec_best_ask() is None,
{
    let book = OrderBook {
        symbol,
        min_price,
        buy_side_limit_levels: empty_ladder(min_price, max_price),
        sell_side_limit_levels: empty_ladder(min_price, max_price),
        current_high_buy_price: None,
        current_low_sell_price: None,
    };
    proof {
        assert forall|i: int| 0 <= i < book@.bids.len() implies #[trigger] book@.bids[i] == Seq::<Order>::empty() by {
            assert(book@.bids[i] =~= Seq::<Order>::empty());
        }
        assert forall|i: int| 0 <= i < book@.asks.len() implies #[trigger] book@.asks[i] == Seq::<Order>::empty() by {
            assert(book@.asks[i] =~= Seq::<Order>::empty());
        }
        assert(book@ =~= BookView::empty(
            symbol,
            min_price as int,
            if max_price >= min_price { max_price - min_price } else { 0 },
        ));
    }
    book
}

impl OrderBook {
    /// The model of this book.
    pub closed spec fn view(&self) -> BookView {
        BookView {
            symbol: self.symbol,
            min_price: self.min_price as int,
            bids: ladder_view(self.buy_side_limit_levels@),
            asks: ladder_view(self.sell_side_limit_levels@),
        }
    }

    /// The two ladders have one level per price of the range, in order.
    pub closed spec fn layout_ok(&self) -> bool {
        &&& self.buy_side_limit_levels@.len() == self.sell_side_limit_levels@.len()
        &&& self.min_price + self.buy_side_limit_levels@.len() <= usize::MAX
        &&& forall|i: int|
            0 <= i < self.buy_side_limit_levels@.len() ==> (#[trigger] self.buy_side_limit_levels@[i]).price
                == self.min_price + i
        &&& forall|i: int|
            0 <= i < self.sell_side_limit_levels@.len() ==> (#[trigger] self.sell_side_limit_levels@[i]).price
                == self.min_price + i
    }

    /// The best bid that the book keeps.
    pub closed spec fn spec_best_bid(&self) -> Option<Price> {
        self.current_high_buy_price
    }

    /// The best ask that the book keeps.
    pub closed spec fn spec_best_ask(&self) -> Option<Price> {
        self.current_low_sell_price
    }

    /// The invariant of the book. Its model is well formed, so in particular
    /// not crossed, and the best prices that it keeps are the highest price
    /// with a resting bid and the lowest price with a resting ask.
    pub open spec fn wf(&self) -> bool {
        &&& self.layout_ok()
        &&& self@.wf()
        &&& self@.best_bid_is(self.spec_best_bid())
        &&& self@.best_ask_is(self.spec_best_ask())
    }

    /// The highest price at which a bid rests, if any does.
    #[verifier::when_used_as_spec(spec_best_bid)]
    pub fn best_bid(&self) -> (best: Option<Price>)
        ensures
            best == self.spec_best_bid(),
            self.wf() ==> self@.best_bid_is(best),
    {
        self.current_high_buy_price
    }

    /// The lowest price at which an ask rests, if any does.
    #[verifier::when_used_as_spec(spec_best_ask)]
    pub fn best_ask(&self) -> (best: Option<Price>)
        ensures
            best == self.spec_best_ask(),
            self.wf() ==> self@.best_ask_is(best),
    {
        self.current_low_sell_price
    }

    /// The instrument of this book.
    pub fn symbol(&self) -> (symbol: TickerSymbol)
        ensures
            symbol == self@.symbol,
    {
        self.symbol
    }

    /// The lowest price of the book's range.
    pub fn min_price(&self) -> (price: Price)
        ensures
            price == self@.min_price,
    {
        self.min_price
    }

    /// The first price above the book's range.
    pub fn max_price(&self) -> (price: Price)
        requires
            self.wf(),
        ensures
            price == self@.max_price(),
    {
        self.min_price + self.buy_side_limit_levels.len()
    }

    /// Whether the book takes `request`: its price is in range and its
    /// amount is positive.
    pub fn accepts(&self, request: &OrderRequest) -> (ok: bool)
        ensures
            ok == self@.accepts(*request),
    {
        request.amount > 0 && self.min_price <= request.price && request.price - self.min_price
            < self.buy_side_limit_levels.len()
    }

    /// The highest price at or below level `from` at which a bid rests.
    fn highest_bid_at_or_below(&self, from: usize) -> (best: Option<Price>)
        requires
            self.layout_ok(),
            from < self@.bids.len(),
            forall|i: int| from < i < self@.bids.len() ==> (#[trigger] self@.bids[i]).len() == 0,
        ensures
            self@.best_bid_is(best),
    {
        let mut probe: usize = from + 1;
        while probe > 0 && self.buy_side_limit_levels[probe - 1].is_empty()
            invariant
                self.layout_ok(),
                probe <= from + 1,
                from < self@.bids.len(),
                forall|i: int| probe <= i < self@.bids.len() ==> (#[trigger] self@.bids[i]).len() == 0,
            decreases probe,
        {
            probe = probe - 1;
        }
        if probe == 0 {
            None
        } else {
            Some(self.min_price + (probe - 1))
        }
    }

    /// The lowest price at or above level `from` at which an ask rests.
    fn lowest_ask_at_or_above(&self, from: usize) -> (best: Option<Price>)
        requires
            self.layout_ok(),
            from <= self@.asks.len(),
            forall|i: int| 0 <= i < from ==> (#[trigger] self@.asks[i]).len() == 0,
        ensures
            self@.best_ask_is(best),
    {
        let mut probe: usize = from;
        while probe < self.sell_side_limit_levels.len() && self.sell_side_limit_levels[probe].is_empty()
            invariant
                self.layout_ok(),
                from <= probe <= self@.asks.len(),
                forall|i: int| 0 <= i < probe ==> (#[trigger] self@.asks[i]).len() == 0,
            decreases self@.asks.len() - probe,
        {
            probe = probe + 1;
        }
        if probe == self.sell_side_limit_levels.len() {
            None
        } else {
            Some(self.min_price + probe)
        }
    }

    /// Rests `request` under the identity `order_id`: the order joins the
    /// back of the queue at its price on its own side, and the best price of
    /// that side follows.
    fn rest_order(&mut self, request: OrderRequest, order_id: OrderId)
        requires
            old(self).wf(),
            old(self)@.accepts(request),
            old(self)@.can_rest(request),
        ensures
            final(self).wf(),
            final(self)@ == old(self)@.rested(request, order_id),
    {
        let new_order = Order {
            order_id,
            trader_id: request.trader_id,
            symbol: request.symbol,
            amount: request.amount,
            price: request.price,
            order_type: request.order_type,
        };
        let level: usize = request.price - self.min_price;
        let ghost before = self@;
        match new_order.order_type {
            OrderType::Buy => {
                let raise = match self.current_high_buy_price {
                    Some(best) => best < new_order.price,
                    None => true,
                };
                if raise {
                    self.current_high_buy_price = Some(new_order.price);
                }
                self.buy_side_limit_levels[level].insert(new_order);
                proof {
                    let queue = before.bids[level as int].push(new_order);
                    assert(self@.bids =~= before.bids.update(level as int, queue));
                    assert(self@ =~= before.rested(request, order_id));
                    assert forall|i: int| 0 <= i < self@.bids.len() implies queue_ok(
                        #[trigger] self@.bids[i],
                        self.min_price + i,
                        OrderType::Buy,
                    ) by {
                        if i != level {
                            assert(self@.bids[i] == before.bids[i]);
                        }
                    }
                    assert forall|i: int, j: int|
                        0 <= i < self@.bids.len() && 0 <= j < self@.asks.len() && (#[trigger] self@.bids[i]).len()
                            > 0 && (#[trigger] self@.asks[j]).len() > 0 implies i < j by {
                        if i != level {
                            assert(self@.bids[i] == before.bids[i]);
                            assert(before.asks[j].len() > 0);
                        }
                    }
                    assert forall|i: int|
                        self.current_high_buy_price.unwrap() - self.min_price < i < self@.bids.len() implies (
                    #[trigger] self@.bids[i]).len() == 0 by {
                        assert(self@.bids[i] == before.bids[i]);
                    }
                }
            },
            OrderType::Sell => {
                let lower = match self.current_low_sell_price {
                    Some(best) => best > new_order.price,
                    None => true,
                };
                if lower {
                    self.current_low_sell_price = Some(new_order.price);
                }
                self.sell_side_limit_levels[level].insert(new_order);
                proof {
                    let queue = before.asks[level as int].push(new_order);
                    assert(self@.asks =~= before.asks.update(level as int, queue));
                    assert(self@ =~= before.rested(request, order_id));
                    assert forall|i: int| 0 <= i < self@.asks.len() implies queue_ok(
                        #[trigger] self@.asks[i],
                        self.min_price + i,
                        OrderType::Sell,
                    ) by {
                        if i != level {
                            assert(self@.asks[i] == before.asks[i]);
                        }
                    }
                    assert forall|i: int, j: int|
                        0 <= i < self@.bids.len() && 0 <= j < self@.asks.len() && (#[trigger] self@.bids[i]).len()
                            > 0 && (#[trigger] self@.asks[j]).len() > 0 implies i < j by {
                        if j != level {
                            assert(self@.asks[j] == before.asks[j]);
                            assert(before.bids[i].len() > 0);
                        }
                    }
                    assert forall|i: int|
                        0 <= i < self.current_low_sell_price.unwrap() - self.min_price implies (
                    #[trigger] self@.asks[i]).len() == 0 by {
                        assert(self@.asks[i] == before.asks[i]);
                    }
                }
            },
        }
    }

    /// Rests `new_order_request` in the book under a freshly drawn identity
    /// and returns that identity.
    pub(crate) fn add_order_to_book(&mut self, new_order_request: OrderRequest) -> (order_id: OrderId)
        requires
            old(self).wf(),
            old(self)@.accepts(new_order_request),
            old(self)@.can_rest(new_order_request),
        ensures
            final(self).wf(),
            final(self)@ == old(self)@.rested(new_order_request, order_id),
            is_random_uuid(order_id),
    {
        let order_id = fresh_order_id();
        self.rest_order(new_order_request, order_id);
        order_id
    }

    /// Submits a sell. The bids are swept from the best bid down to the
    /// limit of the request, oldest order first at each price, each trade at
    /// the price of the bid it hits. What is left of the request rests among
    /// the asks at its limit, under a fresh identity, which is returned; the
    /// fills are returned in the order in which they happened.
    pub fn handle_incoming_sell(&mut self, sell_order: OrderRequest) -> (out: (Option<OrderId>, Vec<Fill>))
        requires
            old(self).wf(),
            old(self)@.accepts(sell_order),
            sell_order.order_type == OrderType::Sell,
        ensures
            final(self).wf(),
            out.1@ == old(self)@.matched(sell_order).fills,
            out.0 is Some <==> old(self)@.matched(sell_order).rest > 0,
            final(self)@ == old(self)@.submitted(sell_order, out.0),
            out.0 matches Some(id) ==> is_random_uuid(id),
    {
        let taker = Taker { side: OrderType::Sell, trader_id: sell_order.trader_id, symbol: self.symbol };
        let limit: usize = sell_order.price - self.min_price;
        let mut fills: Vec<Fill> = Vec::new();
        let mut remaining: i32 = sell_order.amount;
        let ghost before = self@;
        let ghost n = before.bids.len() as int;
        let ghost full = before.matched(sell_order);
        let crosses = match self.current_high_buy_price {
            Some(best) => sell_order.price <= best,
            None => false,
        };
        if crosses {
            let best_level: usize = self.current_high_buy_price.unwrap() - self.min_price;
            let mut upper: usize = best_level + 1;
            proof {
                lemma_sweep_skip(before.bids, taker, n - 1, n - limit, sell_order.amount as int, n - upper);
                assert(fills@ + full.fills =~= full.fills);
            }
            while remaining > 0 && upper > limit
                invariant
                    self.layout_ok(),
                    self.symbol == old(self).symbol,
                    self.min_price == old(self).min_price,
                    self.sell_side_limit_levels == old(self).sell_side_limit_levels,
                    self.current_low_sell_price == old(self).current_low_sell_price,
                    self.buy_side_limit_levels@.len() == n,
                    taker.side == OrderType::Sell,
                    limit <= upper <= best_level + 1 <= n,
                    upper == best_level + 1 ==> remaining > 0,
                    remaining >= 0,
                    ladder_ok(ladder_view(self.buy_side_limit_levels@), self.min_price as int, OrderType::Buy),
                    forall|i: int|
                        0 <= i < n ==> (#[trigger] ladder_view(self.buy_side_limit_levels@)[i]).len()
                            <= before.bids[i].len(),
                    forall|i: int|
                        upper < i < n ==> (#[trigger] ladder_view(self.buy_side_limit_levels@)[i]).len() == 0,
                    remaining > 0 ==> forall|i: int|
                        upper <= i < n ==> (#[trigger] ladder_view(self.buy_side_limit_levels@)[i]).len() == 0,
                    full.ladder == sweep(
                        ladder_view(self.buy_side_limit_levels@),
                        taker,
                        upper - 1,
                        upper - limit,
                        remaining as int,
                    ).ladder,
                    full.rest == sweep(
                        ladder_view(self.buy_side_limit_levels@),
                        taker,
                        upper - 1,
                        upper - limit,
                        remaining as int,
                    ).rest,
                    full.fills == fills@ + sweep(
                        ladder_view(self.buy_side_limit_levels@),
                        taker,
                        upper - 1,
                        upper - limit,
                        remaining as int,
                    ).fills,
                decreases upper,
            {
                upper = upper - 1;
                let ghost prev = ladder_view(self.buy_side_limit_levels@);
                let ghost prev_fills = fills@;
                let ghost here = match_queue(prev[upper as int], taker, remaining as int);
                proof {
                    lemma_match_queue(
                        prev[upper as int],
                        taker,
                        remaining as int,
                        self.min_price + upper,
                        OrderType::Buy,
                    );
                }
                remaining = self.buy_side_limit_levels[upper].match_level(taker, remaining, &mut fills);
                proof {
                    let cur = ladder_view(self.buy_side_limit_levels@);
                    assert(cur =~= prev.update(upper as int, here.queue));
                    let later = sweep(cur, taker, upper - 1, upper - limit, remaining as int);
                    assert(fills@ + later.fills =~= prev_fills + (here.fills + later.fills));
                    assert forall|i: int| 0 <= i < cur.len() implies queue_ok(
                        #[trigger] cur[i],
                        self.min_price + i,
                        OrderType::Buy,
                    ) by {
                        if i != upper {
                            assert(cur[i] == prev[i]);
                        }
                    }
                    assert forall|i: int| 0 <= i < n implies (#[trigger] cur[i]).len() <= before.bids[i].len() by {
                        if i != upper {
                            assert(cur[i] == prev[i]);
                        }
                    }
                    assert forall|i: int| upper < i < n implies (#[trigger] cur[i]).len() == 0 by {
                        assert(cur[i] == prev[i]);
                    }
                }
            }
            proof {
                if remaining == 0 {
                    lemma_sweep_nothing(ladder_view(self.buy_side_limit_levels@), taker, upper - 1, upper - limit);
                }
                assert(fills@ + Seq::<Fill>::empty() =~= fills@);
            }
            let best = self.highest_bid_at_or_below(upper);
            self.current_high_buy_price = best;
        } else {
            proof {
                lemma_sweep_skip(before.bids, taker, n - 1, n - limit, sell_order.amount as int, n - limit);
            }
        }
        proof {
            assert(self@ =~= before.swept(sell_order));
            assert forall|i: int, j: int|
                0 <= i < self@.bids.len() && 0 <= j < self@.asks.len() && (#[trigger] self@.bids[i]).len() > 0 && (
                #[trigger] self@.asks[j]).len() > 0 implies i < j by {
                assert(before.bids[i].len() > 0);
            }
        }
        if remaining > 0 {
            let order_id = self.add_order_to_book(
                OrderRequest {
                    amount: remaining,
                    price: sell_order.price,
                    order_type: sell_order.order_type,
                    trader_id: sell_order.trader_id,
                    symbol: sell_order.symbol,
                },
            );
            (Some(order_id), fills)
        } else {
            (None, fills)
        }
    }

    /// Submits a buy. The asks are swept from the best ask up to the limit
    /// of the request, oldest order first at each price, each trade at the
    /// price of the ask it hits. What is left of the request rests among the
    /// bids at its limit, under a fresh identity, which is returned; the
    /// fills are returned in the order in which they happened.
    pub fn handle_incoming_buy(&mut self, buy_order: OrderRequest) -> (out: (Option<OrderId>, Vec<Fill>))
        requires
            old(self).wf(),
            old(self)@.accepts(buy_order),
            buy_order.order_type == OrderType::Buy,
        ensures
            final(self).wf(),
            out.1@ == old(self)@.matched(buy_order).fills,
            out.0 is Some <==> old(self)@.matched(buy_order).rest > 0,
            final(self)@ == old(self)@.submitted(buy_order, out.0),
            out.0 matches Some(id) ==> is_random_uuid(id),
    {
        let taker = Taker { side: OrderType::Buy, trader_id: buy_order.trader_id, symbol: self.symbol };
        let limit: usize = buy_order.price - self.min_price;
        let mut fills: Vec<Fill> = Vec::new();
        let mut remaining: i32 = buy_order.amount;
        let ghost before = self@;
        let ghost n = before.asks.len() as int;
        let ghost full = before.matched(buy_order);
        let crosses = match self.current_low_sell_price {
            Some(best) => buy_order.price >= best,
            None => false,
        };
        if crosses {
            let best_level: usize = self.current_low_sell_price.unwrap() - self.min_price;
            let mut lower: usize = best_level;
            proof {
                lemma_sweep_skip(before.asks, taker, 0, limit + 1, buy_order.amount as int, lower as int);
                assert(fills@ + full.fills =~= full.fills);
            }
            while remaining > 0 && lower <= limit
                invariant
                    self.layout_ok(),
                    self.symbol == old(self).symbol,
                    self.min_price == old(self).min_price,
                    self.buy_side_limit_levels == old(self).buy_side_limit_levels,
                    self.current_high_buy_price == old(self).current_high_buy_price,
                    self.sell_side_limit_levels@.len() == n,
                    taker.side == OrderType::Buy,
                    best_level <= lower <= limit + 1 <= n,
                    lower == best_level ==> remaining > 0,
                    remaining >= 0,
                    ladder_ok(ladder_view(self.sell_side_limit_levels@), self.min_price as int, OrderType::Sell),
                    forall|i: int|
                        0 <= i < n ==> (#[trigger] ladder_view(self.sell_side_limit_levels@)[i]).len()
                            <= before.asks[i].len(),
                    forall|i: int|
                        0 <= i < lower - 1 ==> (#[trigger] ladder_view(self.sell_side_limit_levels@)[i]).len() == 0,
                    remaining > 0 ==> forall|i: int|
                        0 <= i < lower ==> (#[trigger] ladder_view(self.sell_side_limit_levels@)[i]).len() == 0,
                    full.ladder == sweep(
                        ladder_view(self.sell_side_limit_levels@),
                        taker,
                        lower as int,
                        limit + 1 - lower,
                        remaining as int,
                    ).ladder,
                    full.rest == sweep(
                        ladder_view(self.sell_side_limit_levels@),
                        taker,
                        lower as int,
                        limit + 1 - lower,
                        remaining as int,
                    ).rest,
                    full.fills == fills@ + sweep(
                        ladder_view(self.sell_side_limit_levels@),
                        taker,
                        lower as int,
                        limit + 1 - lower,
                        remaining as int,
                    ).fills,
                decreases limit + 1 - lower,
            {
                let ghost prev = ladder_view(self.sell_side_limit_levels@);
                let ghost prev_fills = fills@;
                let ghost here = match_queue(prev[lower as int], taker, remaining as int);
                proof {
                    lemma_match_queue(
                        prev[lower as int],
                        taker,
                        remaining as int,
                        self.min_price + lower,
                        OrderType::Sell,
                    );
                }
                remaining = self.sell_side_limit_levels[lower].match_level(taker, remaining, &mut fills);
                proof {
                    let cur = ladder_view(self.sell_side_limit_levels@);
                    assert(cur =~= prev.update(lower as int, here.queue));
                    let later = sweep(cur, taker, lower + 1, limit - lower, remaining as int);
                    assert(fills@ + later.fills =~= prev_fills + (here.fills + later.fills));
                    assert forall|i: int| 0 <= i < cur.len() implies queue_ok(
                        #[trigger] cur[i],
                        self.min_price + i,
                        OrderType::Sell,
                    ) by {
                        if i != lower {
                            assert(cur[i] == prev[i]);
                        }
                    }
                    assert forall|i: int| 0 <= i < n implies (#[trigger] cur[i]).len() <= before.asks[i].len() by {
                        if i != lower {
                            assert(cur[i] == prev[i]);
                        }
                    }
                    assert forall|i: int| 0 <= i < lower implies (#[trigger] cur[i]).len() == 0 by {
                        assert(cur[i] == prev[i]);
                    }
                }
                lower = lower + 1;
            }
            proof {
                if remaining == 0 {
                    lemma_sweep_nothing(
                        ladder_view(self.sell_side_limit_levels@),
                        taker,
                        lower as int,
                        limit + 1 - lower,
                    );
                }
                assert(fills@ + Seq::<Fill>::empty() =~= fills@);
            }
            // in the event that a price level has been completely bought, update lowest sell price
            let best = self.lowest_ask_at_or_above(lower - 1);
            self.current_low_sell_price = best;
        } else {
            proof {
                lemma_sweep_skip(before.asks, taker, 0, limit + 1, buy_order.amount as int, limit + 1);
            }
        }
        proof {
            assert(self@ =~= before.swept(buy_order));
            assert forall|i: int, j: int|
                0 <= i < self@.bids.len() && 0 <= j < self@.asks.len() && (#[trigger] self@.bids[i]).len() > 0 && (
                #[trigger] self@.asks[j]).len() > 0 implies i < j by {
                assert(before.asks[j].len() > 0);
            }
        }
        if remaining > 0 {
            let order_id = self.add_order_to_book(
                OrderRequest {
                    amount: remaining,
                    price: buy_order.price,
                    order_type: buy_order.order_type,
                    trader_id: buy_order.trader_id,
                    symbol: buy_order.symbol,
                },
            );
            (Some(order_id), fills)
        } else {
            (None, fills)
        }
    }

    /// Submits `new_order_request`: matches it against the other side of the
    /// book and rests what is left of it. Returns the identity under which
    /// the rest came to rest, if anything did, and the fills in the order in
    /// which they happened.
    pub fn handle_incoming_order_request(&mut self, new_order_request: OrderRequest) -> (out: (
        Option<OrderId>,
        Vec<Fill>,
    ))
        requires
            old(self).wf(),
            old(self)@.accepts(new_order_request),
        ensures
            final(self).wf(),
            out.1@ == old(self)@.matched(new_order_request).fills,
            out.0 is Some <==> old(self)@.matched(new_order_request).rest > 0,
            final(self)@ == old(self)@.submitted(new_order_request, out.0),
            out.0 matches Some(id) ==> is_random_uuid(id),
    {
        match new_order_request.order_type {
            OrderType::Buy => self.handle_incoming_buy(new_order_request),
            OrderType::Sell => self.handle_incoming_sell(new_order_request),
        }
    }

    /// Cancels the first order with identity `order_id` in the queue of
    /// `side` at `price` and returns it. Returns `None`, and leaves the book
    /// as it is, if the price is out of range or no order of that queue has
    /// that identity.
    pub fn remove_order_by_uuid(&mut self, order_id: OrderId, price: Price, side: OrderType) -> (out: Option<Order>)
        requires
            old(self).wf(),
        ensures
            final(self).wf(),
            ({
                let queue = old(self)@.queue_at(side, price as int);
                let index = position_of(queue, order_id);
                if old(self)@.in_range(price as int) && index < queue.len() {
                    &&& out == Some(queue[index])
                    &&& final(self)@ == old(self)@.cancelled(side, price as int, index)
                } else {
                    &&& out is None
                    &&& final(self)@ == old(self)@
                }
            }),
    {
        if price < self.min_price || price - self.min_price >= self.buy_side_limit_levels.len() {
            return None;
        }
        let level: usize = price - self.min_price;
        let ghost before = self@;
        let ghost queue = before.queue_at(side, price as int);
        proof {
            lemma_position_of(queue, order_id);
        }
        match side {
            OrderType::Buy => {
                let mut index: usize = 0;
                while index < self.buy_side_limit_levels[level].orders.len()
                    invariant
                        *self == *old(self),
                        old(self).wf(),
                        before == old(self)@,
                        side == OrderType::Buy,
                        level == price - self.min_price,
                        level < self.buy_side_limit_levels@.len(),
                        queue == before.queue_at(side, price as int),
                        queue == self.buy_side_limit_levels@[level as int].orders@,
                        index <= position_of(queue, order_id) <= queue.len(),
                    decreases queue.len() - index,
                {
                    proof {
                        lemma_position_of(queue, order_id);
                    }
                    if self.buy_side_limit_levels[level].orders[index].order_id == order_id {
                        let order = self.buy_side_limit_levels[level].remove_at(index);
                        proof {
                            assert(self@.bids =~= before.bids.update(level as int, queue.remove(index as int)));
                            assert(self@ =~= before.cancelled(side, price as int, index as int));
                            assert forall|i: int| 0 <= i < self@.bids.len() implies queue_ok(
                                #[trigger] self@.bids[i],
                                self.min_price + i,
                                OrderType::Buy,
                            ) by {
                                if i != level {
                                    assert(self@.bids[i] == before.bids[i]);
                                }
                            }
                            assert forall|i: int, j: int|
                                0 <= i < self@.bids.len() && 0 <= j < self@.asks.len() && (
                                #[trigger] self@.bids[i]).len() > 0 && (#[trigger] self@.asks[j]).len()
                                    > 0 implies i < j by {
                                assert(before.bids[i].len() > 0);
                            }
                        }
                        if self.buy_side_limit_levels[level].is_empty() {
                            let was_best = match self.current_high_buy_price {
                                Some(best) => best == price,
                                None => false,
                            };
                            if was_best {
                                proof {
                                    assert forall|i: int| level < i < self@.bids.len() implies (
                                    #[trigger] self@.bids[i]).len() == 0 by {
                                        assert(self@.bids[i] == before.bids[i]);
                                    }
                                }
                                let best = self.highest_bid_at_or_below(level);
                                self.current_high_buy_price = best;
                            }
                        }
                        proof {
                            if let Some(best) = self.current_high_buy_price {
                                assert forall|i: int| best - self.min_price < i < self@.bids.len() implies (
                                #[trigger] self@.bids[i]).len() == 0 by {
                                    if i != level {
                                        assert(self@.bids[i] == before.bids[i]);
                                    }
                                }
                            } else {
                                assert forall|i: int| 0 <= i < self@.bids.len() implies (
                                #[trigger] self@.bids[i]).len() == 0 by {
                                    if i != level {
                                        assert(self@.bids[i] == before.bids[i]);
                                    }
                                }
                            }
                        }
                        return Some(order);
                    }
                    index += 1;
                }
            },
            OrderType::Sell => {
                let mut index: usize = 0;
                while index < self.sell_side_limit_levels[level].orders.len()
                    invariant
                        *self == *old(self),
                        old(self).wf(),
                        before == old(self)@,
                        side == OrderType::Sell,
                        level == price - self.min_price,
                        level < self.sell_side_limit_levels@.len(),
                        queue == before.queue_at(side, price as int),
                        queue == self.sell_side_limit_levels@[level as int].orders@,
                        index <= position_of(queue, order_id) <= queue.len(),
                    decreases queue.len() - index,
                {
                    proof {
                        lemma_position_of(queue, order_id);
                    }
                    if self.sell_side_limit_levels[level].orders[index].order_id == order_id {
                        let order = self.sell_side_limit_levels[level].remove_at(index);
                        proof {
                            assert(self@.asks =~= before.asks.update(level as int, queue.remove(index as int)));
                            assert(self@ =~= before.cancelled(side, price as int, index as int));
                            assert forall|i: int| 0 <= i < self@.asks.len() implies queue_ok(
                                #[trigger] self@.asks[i],
                                self.min_price + i,
                                OrderType::Sell,
                            ) by {
                                if i != level {
                                    assert(self@.asks[i] == before.asks[i]);
                                }
                            }
                            assert forall|i: int, j: int|
                                0 <= i < self@.bids.len() && 0 <= j < self@.asks.len() && (
                                #[trigger] self@.bids[i]).len() > 0 && (#[trigger] self@.asks[j]).len()
                                    > 0 implies i < j by {
                                assert(before.asks[j].len() > 0);
                            }
                        }
                        if self.sell_side_limit_levels[level].is_empty() {
                            let was_best = match self.current_low_sell_price {
                                Some(best) => best == price,
                                None => false,
                            };
                            if was_best {
                                proof {
                                    assert forall|i: int| 0 <= i < level implies (#[trigger] self@.asks[i]).len()
                                        == 0 by {
                                        assert(self@.asks[i] == before.asks[i]);
                                    }
                                }
                                let best = self.lowest_ask_at_or_above(level);
                                self.current_low_sell_price = best;
                            }
                        }
                        proof {
                            if let Some(best) = self.current_low_sell_price {
                                assert forall|i: int| 0 <= i < best - self.min_price implies (
                                #[trigger] self@.asks[i]).len() == 0 by {
                                    if i != level {
                                        assert(self@.asks[i] == before.asks[i]);
                                    }
                                }
                            } else {
                                assert forall|i: int| 0 <= i < self@.asks.len() implies (
                                #[trigger] self@.asks[i]).len() == 0 by {
                                    if i != level {
                                        assert(self@.asks[i] == before.asks[i]);
                                    }
                                }
                            }
                        }
                        return Some(order);
                    }
                    index += 1;
                }
            },
        }
        None
    }

    /// The outstanding quantity on each side of every price of the book,
    /// lowest price first.
    pub fn book_state(&self) -> (state: Vec<LevelState>)
        requires
            self.wf(),
        ensures
            state@.len() == self@.levels(),
            forall|i: int|
                0 <= i < state@.len() ==> {
                    &&& (#[trigger] state@[i]).price == self@.min_price + i
                    &&& state@[i].outstanding_sell_orders == queue_total(self@.asks[i])
                    &&& state@[i].outstanding_buy_orders == queue_total(self@.bids[i])
                },
    {
        let mut state: Vec<LevelState> = Vec::new();
        let mut price_level_index: usize = 0;
        while price_level_index < self.buy_side_limit_levels.len()
            invariant
                self.wf(),
                price_level_index <= self.buy_side_limit_levels@.len(),
                state@.len() == price_level_index,
                forall|i: int|
                    0 <= i < state@.len() ==> {
                        &&& (#[trigger] state@[i]).price == self@.min_price + i
                        &&& state@[i].outstanding_sell_orders == queue_total(self@.asks[i])
                        &&& state@[i].outstanding_buy_orders == queue_total(self@.bids[i])
                    },
            decreases self.buy_side_limit_levels@.len() - price_level_index,
        {
            proof {
                assert(queue_ok(
                    self@.asks[price_level_index as int],
                    self.min_price + price_level_index,
                    OrderType::Sell,
                ));
                assert(queue_ok(
                    self@.bids[price_level_index as int],
                    self.min_price + price_level_index,
                    OrderType::Buy,
                ));
            }
            let outstanding_sell_orders = self.sell_side_limit_levels[price_level_index].outstanding();
            let outstanding_buy_orders = self.buy_side_limit_levels[price_level_index].outstanding();
            state.push(
                LevelState {
                    price: self.buy_side_limit_levels[price_level_index].price,
                    outstanding_sell_orders,
                    outstanding_buy_orders,
                },
            );
            price_level_index += 1;
        }
        state
    }

    /// The orders of `side` resting at `price`, oldest first. The result is
    /// empty if the price is out of range.
    pub fn orders_at(&self, price: Price, side: OrderType) -> (orders: Vec<Order>)
        requires
            self.wf(),
        ensures
            orders@ == if self@.in_range(price as int) {
                self@.queue_at(side, price as int)
            } else {
                Seq::empty()
            },
    {
        let mut orders: Vec<Order> = Vec::new();
        if price < self.min_price || price - self.min_price >= self.buy_side_limit_levels.len() {
            return orders;
        }
        let level: usize = price - self.min_price;
        let queue = match side {
            OrderType::Buy => &self.buy_side_limit_levels[level].orders,
            OrderType::Sell => &self.sell_side_limit_levels[level].orders,
        };
        let mut index: usize = 0;
        while index < queue.len()
            invariant
                index <= queue@.len(),
                orders@ == queue@.subrange(0, index as int),
            decreases queue@.len() - index,
        {
            orders.push(queue[index]);
            index += 1;
        }
        proof {
            assert(queue@.subrange(0, index as int) =~= queue@);
        }
        orders
    }
}

} // verus!
