//! The account of one resting order: what each submission trades against
//! it, and what it has left once a run of submissions is over.

use vstd::prelude::*;
use crate::book::BookView;
use crate::laws::{
    law_fifo_within_level, law_level_is_matched_as_it_stood, law_submission_keeps_invariant,
};
use crate::level::{lemma_match_queue_fifo, lemma_queue_total_bounds, queue_ok, reduced, taken, used_up};
use crate::order::{Order, OrderId, OrderRequest, OrderType, fill_between};
use crate::sweep::{lemma_sweep, visits};

verus! {

/// Where an order rests: its side, its price, and its position in the queue
/// at that price.
pub struct Place {
    pub side: OrderType,
    pub price: int,
    pub index: int,
}

/// One submission: the request, and the identity under which what is left
/// of it comes to rest, if anything is left.
pub struct Submission {
    pub request: OrderRequest,
    pub id: Option<OrderId>,
}

impl BookView {
    /// An order rests at `place`.
    pub open spec fn holds(self, place: Place) -> bool {
        &&& self.in_range(place.price)
        &&& 0 <= place.index < self.queue_at(place.side, place.price).len()
    }

    /// The order that rests at `place`.
    pub open spec fn order_at(self, place: Place) -> Order {
        self.queue_at(place.side, place.price)[place.index]
    }

    /// How much of `request` comes to the queue of `place`: what the better
    /// prices leave of it if it trades with that side at that price, and
    /// nothing otherwise.
    pub open spec fn reaching(self, request: OrderRequest, place: Place) -> int {
        if place.side == request.order_type.opposite() && self.crosses_at(request, place.price) {
            self.matched_before(request, place.price).rest
        } else {
            0
        }
    }

    /// The amount that `request` trades against the order at `place`.
    pub open spec fn traded_against(self, request: OrderRequest, place: Place) -> int {
        taken(self.queue_at(place.side, place.price), self.reaching(request, place), place.index)
    }

    /// Where the order at `place` rests once `request` has been submitted:
    /// it moves up by the number of orders ahead of it that were used up. A
    /// negative position says that the order itself was used up.
    pub open spec fn place_after(self, request: OrderRequest, place: Place) -> Place {
        Place {
            index: place.index - used_up(
                self.queue_at(place.side, place.price),
                self.reaching(request, place),
            ),
            ..place
        }
    }

    /// The position, among the fills of `request`, of the fill that records
    /// its trade with the order at `place`, if there is such a trade.
    pub open spec fn fill_position(self, request: OrderRequest, place: Place) -> int {
        self.matched_before(request, place.price).fills.len() + place.index
    }
}

/// The account of one resting order over one submission. What is traded
/// against the order is between nothing and what the order has left. If
/// anything is traded, one fill of the submission records exactly that
/// trade. If the order is not used up it stays in its queue, moved up past
/// the orders that were, and has left what it had less what was traded; if
/// it is used up it leaves the queue.
pub proof fn law_order_accounting(book: BookView, request: OrderRequest, id: Option<OrderId>, place: Place)
    requires
        book.wf(),
        book.accepts(request),
        book.holds(place),
    ensures
        ({
            let order = book.order_at(place);
            let traded = book.traded_against(request, place);
            let after = book.submitted(request, id);
            let fills = book.matched(request).fills;
            &&& order.amount > 0
            &&& 0 <= traded <= order.amount
            &&& traded > 0 ==> {
                &&& place.side == request.order_type.opposite()
                &&& book.crosses_at(request, place.price)
                &&& book.fill_position(request, place) < fills.len()
                &&& fills[book.fill_position(request, place)] == fill_between(book.taker(request), order, traded)
            }
            &&& traded < order.amount ==> {
                &&& after.holds(book.place_after(request, place))
                &&& after.order_at(book.place_after(request, place)) == reduced(order, traded)
            }
            &&& traded == order.amount ==> book.place_after(request, place).index < 0
        }),
{
    let queue = book.queue_at(place.side, place.price);
    let level = place.price - book.min_price;
    let limit = request.price - book.min_price;
    let n = book.levels();
    let order = book.order_at(place);
    let after = book.submitted(request, id);
    let reaching = book.reaching(request, place);
    assert(queue_ok(queue, place.price, place.side)) by {
        match place.side {
            OrderType::Buy => {
                assert(queue_ok(book.bids[level], book.min_price + level, OrderType::Buy));
            },
            OrderType::Sell => {
                assert(queue_ok(book.asks[level], book.min_price + level, OrderType::Sell));
            },
        }
    }
    assert(order.amount > 0);
    law_submission_keeps_invariant(book, request, id);
    if place.side == request.order_type.opposite() && book.crosses_at(request, place.price) {
        law_level_is_matched_as_it_stood(book, request, id, place.price);
        law_fifo_within_level(book, request, place.price);
        lemma_match_queue_fifo(queue, book.taker(request), reaching, place.price, place.side);
    } else {
        assert(reaching == 0);
        assert(queue_ok(queue.subrange(0, place.index), place.price, place.side));
        lemma_queue_total_bounds(queue.subrange(0, place.index), place.price, place.side);
        assert(book.traded_against(request, place) == 0);
        assert(used_up(queue, 0) == 0);
        assert(reduced(order, 0) == order);
        if place.side == request.order_type {
            assert(after.queue_at(place.side, place.price).len() >= queue.len());
            assert(after.queue_at(place.side, place.price)[place.index] == order);
        } else {
            match request.order_type {
                OrderType::Sell => {
                    lemma_sweep(
                        book.bids,
                        book.taker(request),
                        n - 1,
                        n - limit,
                        request.amount as int,
                        book.min_price,
                    );
                    assert(!visits(OrderType::Sell, n - 1, n - limit, level));
                    assert(after.bids[level] == book.bids[level]);
                },
                OrderType::Buy => {
                    lemma_sweep(
                        book.asks,
                        book.taker(request),
                        0,
                        limit + 1,
                        request.amount as int,
                        book.min_price,
                    );
                    assert(!visits(OrderType::Buy, 0, limit + 1, level));
                    assert(after.asks[level] == book.asks[level]);
                },
            }
        }
    }
}

/// Every request of `steps` is one that a book of this range takes.
pub open spec fn all_accepted(book: BookView, steps: Seq<Submission>) -> bool {
    forall|i: int| 0 <= i < steps.len() ==> book.accepts((#[trigger] steps[i]).request)
}

/// The sum of the amounts that the submissions `steps`, made one after the
/// other on `book`, trade against the order that rests at `place` in
/// `book`.
pub open spec fn traded_in_all(book: BookView, steps: Seq<Submission>, place: Place) -> int
    decreases steps.len(),
{
    if steps.len() == 0 {
        0
    } else {
        let traded = book.traded_against(steps[0].request, place);
        if traded < book.order_at(place).amount {
            traded + traded_in_all(
                book.submitted(steps[0].request, steps[0].id),
                steps.drop_first(),
                book.place_after(steps[0].request, place),
            )
        } else {
            traded
        }
    }
}

/// What the order that rests at `place` in `book` has left once the
/// submissions `steps` have been made one after the other: nothing if one
/// of them used it up.
pub open spec fn left_after_all(book: BookView, steps: Seq<Submission>, place: Place) -> int
    decreases steps.len(),
{
    if steps.len() == 0 {
        book.order_at(place).amount as int
    } else if book.traded_against(steps[0].request, place) < book.order_at(place).amount {
        left_after_all(
            book.submitted(steps[0].request, steps[0].id),
            steps.drop_first(),
            book.place_after(steps[0].request, place),
        )
    } else {
        0
    }
}

/// Conservation. Over any run of submissions, what is traded against a
/// resting order is what the order had less what it has left; so it is never
/// more than the order had.
pub proof fn law_conservation(book: BookView, steps: Seq<Submission>, place: Place)
    requires
        book.wf(),
        all_accepted(book, steps),
        book.holds(place),
    ensures
        traded_in_all(book, steps, place) == book.order_at(place).amount - left_after_all(book, steps, place),
        0 <= left_after_all(book, steps, place) <= book.order_at(place).amount,
        0 <= traded_in_all(book, steps, place) <= book.order_at(place).amount,
    decreases steps.len(),
{
    if steps.len() == 0 {
        let level = place.price - book.min_price;
        match place.side {
            OrderType::Buy => {
                assert(queue_ok(book.bids[level], book.min_price + level, OrderType::Buy));
            },
            OrderType::Sell => {
                assert(queue_ok(book.asks[level], book.min_price + level, OrderType::Sell));
            },
        }
    } else {
        let step = steps[0];
        let after = book.submitted(step.request, step.id);
        law_order_accounting(book, step.request, step.id, place);
        law_submission_keeps_invariant(book, step.request, step.id);
        if book.traded_against(step.request, place) < book.order_at(place).amount {
            assert forall|i: int| 0 <= i < steps.drop_first().len() implies after.accepts(
                (#[trigger] steps.drop_first()[i]).request,
            ) by {
                assert(steps.drop_first()[i] == steps[i + 1]);
            }
            law_conservation(after, steps.drop_first(), book.place_after(step.request, place));
        }
    }
}

} // verus!
