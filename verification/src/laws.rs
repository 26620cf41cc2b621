//! What holds of every book and every submission: the book's invariant is
//! kept, the best prices are what their names say, and matching goes by
//! price first and by arrival second.

use vstd::prelude::*;
use crate::book::{BookView, OrderBook};
use crate::level::{fills_total, lemma_match_queue_fifo, match_queue, queue_ok, taken};
use crate::order::{OrderId, OrderRequest, OrderType, fill_between};
use crate::sweep::{
    Sweep, lemma_sweep, lemma_sweep_level, lemma_sweep_priority, lemma_sweep_totals, steps_to, sweep,
    visited_total, visits,
};

verus! {

impl BookView {
    /// The level at which the sweep of `request` starts: the highest bid
    /// level for a sell, the lowest ask level for a buy.
    pub open spec fn first_level(self, request: OrderRequest) -> int {
        match request.order_type {
            OrderType::Sell => self.levels() - 1,
            OrderType::Buy => 0,
        }
    }

    /// `request` is willing to trade at `price`: the price is in range and
    /// no worse for the request than its limit.
    pub open spec fn crosses_at(self, request: OrderRequest, price: int) -> bool {
        &&& self.in_range(price)
        &&& match request.order_type {
            OrderType::Sell => request.price <= price,
            OrderType::Buy => price <= request.price,
        }
    }

    /// `a` is a better price than `b` for `request` to trade at: higher for
    /// a sell, lower for a buy.
    pub open spec fn better_for(request: OrderRequest, a: int, b: int) -> bool {
        match request.order_type {
            OrderType::Sell => a > b,
            OrderType::Buy => a < b,
        }
    }

    /// The number of levels that the sweep of `request` visits: those from
    /// the best possible price to the limit of the request.
    pub open spec fn levels_crossed(self, request: OrderRequest) -> int {
        match request.order_type {
            OrderType::Sell => self.max_price() - request.price,
            OrderType::Buy => request.price - self.min_price + 1,
        }
    }

    /// The quantity that rests on the other side at prices at which
    /// `request` is willing to trade.
    pub open spec fn crossing_liquidity(self, request: OrderRequest) -> int {
        visited_total(
            self.ladder(request.order_type.opposite()),
            request.order_type,
            self.first_level(request),
            self.levels_crossed(request),
        )
    }

    /// The part of the sweep of `request` that comes before the level at
    /// `price`.
    pub open spec fn matched_before(self, request: OrderRequest, price: int) -> Sweep {
        sweep(
            self.ladder(request.order_type.opposite()),
            self.taker(request),
            self.first_level(request),
            steps_to(request.order_type, self.first_level(request), price - self.min_price),
            request.amount as int,
        )
    }
}

/// Resting a request that does not cross keeps the book well formed.
pub proof fn law_resting_keeps_invariant(book: BookView, request: OrderRequest, id: OrderId)
    requires
        book.wf(),
        book.accepts(request),
        book.can_rest(request),
    ensures
        book.rested(request, id).wf(),
        book.rested(request, id).symbol == book.symbol,
        book.rested(request, id).min_price == book.min_price,
        book.rested(request, id).levels() == book.levels(),
{
    let after = book.rested(request, id);
    let limit = request.price - book.min_price;
    match request.order_type {
        OrderType::Buy => {
            assert forall|i: int| 0 <= i < after.bids.len() implies queue_ok(
                #[trigger] after.bids[i],
                after.min_price + i,
                OrderType::Buy,
            ) by {
                assert(queue_ok(book.bids[i], book.min_price + i, OrderType::Buy));
            }
            assert forall|i: int, j: int|
                0 <= i < after.bids.len() && 0 <= j < after.asks.len() && (#[trigger] after.bids[i]).len() > 0
                    && (#[trigger] after.asks[j]).len() > 0 implies i < j by {
                if i != limit {
                    assert(book.bids[i].len() > 0);
                }
            }
        },
        OrderType::Sell => {
            assert forall|i: int| 0 <= i < after.asks.len() implies queue_ok(
                #[trigger] after.asks[i],
                after.min_price + i,
                OrderType::Sell,
            ) by {
                assert(queue_ok(book.asks[i], book.min_price + i, OrderType::Sell));
            }
            assert forall|i: int, j: int|
                0 <= i < after.bids.len() && 0 <= j < after.asks.len() && (#[trigger] after.bids[i]).len() > 0
                    && (#[trigger] after.asks[j]).len() > 0 implies i < j by {
                if j != limit {
                    assert(book.asks[j].len() > 0);
                }
            }
        },
    }
}

/// A submission keeps the book well formed, and so not crossed: once it is
/// done, no bid rests at or above an ask, whatever was submitted.
pub proof fn law_submission_keeps_invariant(book: BookView, request: OrderRequest, id: Option<OrderId>)
    requires
        book.wf(),
        book.accepts(request),
    ensures
        book.submitted(request, id).wf(),
        book.submitted(request, id).symbol == book.symbol,
        book.submitted(request, id).min_price == book.min_price,
        book.submitted(request, id).levels() == book.levels(),
{
    let limit = request.price - book.min_price;
    let n = book.levels();
    let taker = book.taker(request);
    let s = book.matched(request);
    let swept = book.swept(request);
    let rest = OrderRequest { amount: s.rest as i32, ..request };
    match request.order_type {
        OrderType::Sell => {
            lemma_sweep(book.bids, taker, n - 1, n - limit, request.amount as int, book.min_price);
            assert forall|i: int, j: int|
                0 <= i < swept.bids.len() && 0 <= j < swept.asks.len() && (#[trigger] swept.bids[i]).len() > 0
                    && (#[trigger] swept.asks[j]).len() > 0 implies i < j by {
                assert(book.bids[i].len() > 0);
            }
            if s.rest > 0 {
                assert forall|i: int| limit <= i < swept.bids.len() implies (#[trigger] swept.bids[i]).len()
                    == 0 by {
                    assert(visits(OrderType::Sell, n - 1, n - limit, i));
                }
                law_resting_keeps_invariant(swept, rest, id.unwrap());
            }
        },
        OrderType::Buy => {
            lemma_sweep(book.asks, taker, 0, limit + 1, request.amount as int, book.min_price);
            assert forall|i: int, j: int|
                0 <= i < swept.bids.len() && 0 <= j < swept.asks.len() && (#[trigger] swept.bids[i]).len() > 0
                    && (#[trigger] swept.asks[j]).len() > 0 implies i < j by {
                assert(book.asks[j].len() > 0);
            }
            if s.rest > 0 {
                assert forall|i: int| 0 <= i <= limit implies (#[trigger] swept.asks[i]).len() == 0 by {
                    assert(visits(OrderType::Buy, 0, limit + 1, i));
                }
                law_resting_keeps_invariant(swept, rest, id.unwrap());
            }
        },
    }
}

/// A cancellation keeps the book well formed, and so not crossed.
pub proof fn law_cancellation_keeps_invariant(book: BookView, side: OrderType, price: int, index: int)
    requires
        book.wf(),
        book.in_range(price),
        0 <= index < book.queue_at(side, price).len(),
    ensures
        book.cancelled(side, price, index).wf(),
        book.cancelled(side, price, index).levels() == book.levels(),
{
    let after = book.cancelled(side, price, index);
    let level = price - book.min_price;
    match side {
        OrderType::Buy => {
            assert forall|i: int| 0 <= i < after.bids.len() implies queue_ok(
                #[trigger] after.bids[i],
                after.min_price + i,
                OrderType::Buy,
            ) by {
                assert(queue_ok(book.bids[i], book.min_price + i, OrderType::Buy));
            }
            assert forall|i: int, j: int|
                0 <= i < after.bids.len() && 0 <= j < after.asks.len() && (#[trigger] after.bids[i]).len() > 0
                    && (#[trigger] after.asks[j]).len() > 0 implies i < j by {
                assert(book.bids[i].len() > 0);
            }
        },
        OrderType::Sell => {
            assert forall|i: int| 0 <= i < after.asks.len() implies queue_ok(
                #[trigger] after.asks[i],
                after.min_price + i,
                OrderType::Sell,
            ) by {
                assert(queue_ok(book.asks[i], book.min_price + i, OrderType::Sell));
            }
            assert forall|i: int, j: int|
                0 <= i < after.bids.len() && 0 <= j < after.asks.len() && (#[trigger] after.bids[i]).len() > 0
                    && (#[trigger] after.asks[j]).len() > 0 implies i < j by {
                assert(book.asks[j].len() > 0);
            }
        },
    }
}

/// The best bid that a well-formed book keeps is the maximum of the prices
/// at which a bid rests: a bid rests at it and none rests above it, and the
/// book keeps `None` exactly when no bid rests at all.
pub proof fn law_best_bid_is_highest(book: &OrderBook, price: int)
    requires
        book.wf(),
        book@.in_range(price),
    ensures
        book.spec_best_bid() matches Some(best) ==> book@.in_range(best as int) && book@.queue_at(
            OrderType::Buy,
            best as int,
        ).len() > 0,
        book@.queue_at(OrderType::Buy, price).len() > 0 ==> (book.spec_best_bid() matches Some(best)
            && price <= best),
{
    if book@.queue_at(OrderType::Buy, price).len() > 0 {
        assert(book@.bids[price - book@.min_price].len() > 0);
    }
}

/// The best ask that a well-formed book keeps is the minimum of the prices
/// at which an ask rests: an ask rests at it and none rests below it, and
/// the book keeps `None` exactly when no ask rests at all.
pub proof fn law_best_ask_is_lowest(book: &OrderBook, price: int)
    requires
        book.wf(),
        book@.in_range(price),
    ensures
        book.spec_best_ask() matches Some(best) ==> book@.in_range(best as int) && book@.queue_at(
            OrderType::Sell,
            best as int,
        ).len() > 0,
        book@.queue_at(OrderType::Sell, price).len() > 0 ==> (book.spec_best_ask() matches Some(best)
            && best <= price),
{
    if book@.queue_at(OrderType::Sell, price).len() > 0 {
        assert(book@.asks[price - book@.min_price].len() > 0);
    }
}

/// In a well-formed book the best bid is below the best ask.
pub proof fn law_best_prices_do_not_cross(book: &OrderBook)
    requires
        book.wf(),
    ensures
        book.spec_best_bid() is Some && book.spec_best_ask() is Some ==> book.spec_best_bid().unwrap()
            < book.spec_best_ask().unwrap(),
{
    if book.spec_best_bid() is Some && book.spec_best_ask() is Some {
        let bid = book.spec_best_bid().unwrap();
        let ask = book.spec_best_ask().unwrap();
        assert(book@.bids[bid - book@.min_price].len() > 0);
        assert(book@.asks[ask - book@.min_price].len() > 0);
    }
}

/// Quantity is conserved by a submission. It trades the smaller of the
/// amount asked for and the quantity resting on the other side at prices
/// within the limit of the request; the request is left with the rest of its
/// amount, and the other side with the rest of that quantity.
pub proof fn law_liquidity_is_conserved(book: BookView, request: OrderRequest, id: Option<OrderId>)
    requires
        book.wf(),
        book.accepts(request),
    ensures
        ({
            let available = book.crossing_liquidity(request);
            let traded = fills_total(book.matched(request).fills);
            &&& available >= 0
            &&& traded == if request.amount < available { request.amount as int } else { available }
            &&& book.matched(request).rest == request.amount - traded
            &&& book.submitted(request, id).crossing_liquidity(request) == available - traded
        }),
{
    let limit = request.price - book.min_price;
    let n = book.levels();
    law_submission_keeps_invariant(book, request, id);
    match request.order_type {
        OrderType::Sell => {
            lemma_sweep_totals(book.bids, book.taker(request), n - 1, n - limit, request.amount as int, book.min_price);
            assert(book.submitted(request, id).bids == book.matched(request).ladder);
        },
        OrderType::Buy => {
            lemma_sweep_totals(book.asks, book.taker(request), 0, limit + 1, request.amount as int, book.min_price);
            assert(book.submitted(request, id).asks == book.matched(request).ladder);
        },
    }
}

/// Price priority. Every fill of a submission trades a positive amount at a
/// price within the limit of the request; the fills come best price first;
/// and when an order at some price is hit, nothing is left resting at any
/// better price: a better price is never passed over for a worse one.
pub proof fn law_price_priority(book: BookView, request: OrderRequest, id: Option<OrderId>)
    requires
        book.wf(),
        book.accepts(request),
    ensures
        ({
            let fills = book.matched(request).fills;
            let after = book.submitted(request, id);
            &&& forall|k: int| 0 <= k < fills.len() ==> (#[trigger] fills[k]).amount > 0
            &&& forall|k: int| 0 <= k < fills.len() ==> book.crosses_at(request, (#[trigger] fills[k]).price as int)
            &&& forall|j: int, k: int|
                0 <= j <= k < fills.len() ==> !BookView::better_for(
                    request,
                    (#[trigger] fills[k]).price as int,
                    (#[trigger] fills[j]).price as int,
                )
            &&& forall|k: int, price: int|
                0 <= k < fills.len() && book.in_range(price) && BookView::better_for(
                    request,
                    price,
                    (#[trigger] fills[k]).price as int,
                ) ==> (#[trigger] after.queue_at(request.order_type.opposite(), price)).len() == 0
        }),
{
    let limit = request.price - book.min_price;
    let n = book.levels();
    let taker = book.taker(request);
    let s = book.matched(request);
    let after = book.submitted(request, id);
    match request.order_type {
        OrderType::Sell => {
            lemma_sweep_priority(book.bids, taker, n - 1, n - limit, request.amount as int, book.min_price);
            assert(after.bids == s.ladder);
            assert forall|k: int, price: int|
                0 <= k < s.fills.len() && book.in_range(price) && BookView::better_for(
                    request,
                    price,
                    (#[trigger] s.fills[k]).price as int,
                ) implies (#[trigger] after.queue_at(OrderType::Buy, price)).len() == 0 by {
                let level = price - book.min_price;
                assert(visits(OrderType::Sell, n - 1, n - limit, s.fills[k].price - book.min_price));
                assert(visits(OrderType::Sell, n - 1, n - limit, level));
                assert(s.ladder[level].len() == 0);
            }
        },
        OrderType::Buy => {
            lemma_sweep_priority(book.asks, taker, 0, limit + 1, request.amount as int, book.min_price);
            assert(after.asks == s.ladder);
            assert forall|k: int, price: int|
                0 <= k < s.fills.len() && book.in_range(price) && BookView::better_for(
                    request,
                    price,
                    (#[trigger] s.fills[k]).price as int,
                ) implies (#[trigger] after.queue_at(OrderType::Sell, price)).len() == 0 by {
                let level = price - book.min_price;
                assert(visits(OrderType::Buy, 0, limit + 1, s.fills[k].price - book.min_price));
                assert(visits(OrderType::Buy, 0, limit + 1, level));
                assert(s.ladder[level].len() == 0);
            }
        },
    }
}

/// What a submission does at one price at which it is willing to trade. The
/// queue of the other side at that price is matched, as it stood, with what
/// the better prices left of the request.
pub proof fn law_level_is_matched_as_it_stood(
    book: BookView,
    request: OrderRequest,
    id: Option<OrderId>,
    price: int,
)
    requires
        book.wf(),
        book.accepts(request),
        book.crosses_at(request, price),
    ensures
        ({
            let side = request.order_type.opposite();
            let before = book.matched_before(request, price);
            let here = match_queue(book.queue_at(side, price), book.taker(request), before.rest);
            let fills = book.matched(request).fills;
            &&& queue_ok(book.queue_at(side, price), price, side)
            &&& 0 <= before.rest <= request.amount
            &&& book.submitted(request, id).queue_at(side, price) == here.queue
            &&& before.fills.len() + here.fills.len() <= fills.len()
            &&& fills.subrange(before.fills.len() as int, (before.fills.len() + here.fills.len()) as int)
                == here.fills
        }),
{
    let limit = request.price - book.min_price;
    let level = price - book.min_price;
    let n = book.levels();
    let taker = book.taker(request);
    match request.order_type {
        OrderType::Sell => {
            assert(queue_ok(book.bids[level], book.min_price + level, OrderType::Buy));
            lemma_sweep_level(book.bids, taker, n - 1, n - limit, request.amount as int, book.min_price, level);
        },
        OrderType::Buy => {
            assert(queue_ok(book.asks[level], book.min_price + level, OrderType::Sell));
            lemma_sweep_level(book.asks, taker, 0, limit + 1, request.amount as int, book.min_price, level);
        },
    }
}

/// FIFO within a level. Of the orders resting at one price, a submission
/// hits them in the order in which they came: the fills at that price stand
/// together, fill number `i` of them records the trade with order number
/// `i` of the queue, and every order before the last one hit is served in
/// full. So an order is never hit while an older order at its price has
/// anything left.
pub proof fn law_fifo_within_level(book: BookView, request: OrderRequest, price: int)
    requires
        book.wf(),
        book.accepts(request),
        book.crosses_at(request, price),
    ensures
        ({
            let queue = book.queue_at(request.order_type.opposite(), price);
            let before = book.matched_before(request, price);
            let hits = match_queue(queue, book.taker(request), before.rest).fills.len();
            let fills = book.matched(request).fills;
            &&& hits <= queue.len()
            &&& before.fills.len() + hits <= fills.len()
            &&& forall|i: int|
                0 <= i < hits ==> {
                    &&& taken(queue, before.rest, i) > 0
                    &&& #[trigger] fills[before.fills.len() + i] == fill_between(
                        book.taker(request),
                        queue[i],
                        taken(queue, before.rest, i),
                    )
                }
            &&& forall|i: int| 0 <= i < hits - 1 ==> #[trigger] taken(queue, before.rest, i) == queue[i].amount
            &&& forall|i: int| hits <= i < queue.len() ==> #[trigger] taken(queue, before.rest, i) == 0
        }),
{
    let side = request.order_type.opposite();
    let queue = book.queue_at(side, price);
    let before = book.matched_before(request, price);
    let here = match_queue(queue, book.taker(request), before.rest);
    let fills = book.matched(request).fills;
    law_level_is_matched_as_it_stood(book, request, None, price);
    lemma_match_queue_fifo(queue, book.taker(request), before.rest, price, side);
    assert forall|i: int| 0 <= i < here.fills.len() implies {
        &&& taken(queue, before.rest, i) > 0
        &&& #[trigger] fills[before.fills.len() + i] == fill_between(
            book.taker(request),
            queue[i],
            taken(queue, before.rest, i),
        )
    } by {
        let block = fills.subrange(before.fills.len() as int, (before.fills.len() + here.fills.len()) as int);
        assert(block[i] == fills[before.fills.len() + i]);
        assert(here.fills[i] == fill_between(book.taker(request), queue[i], taken(queue, before.rest, i)));
    }
}

} // verus!
