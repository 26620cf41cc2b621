//! One price level: the FIFO queue of the orders resting at one price, and
//! the rule by which an incoming amount is matched against it.

use vstd::prelude::*;
use crate::order::{Fill, Order, OrderType, Price, Taker, fill_between, make_fill};

verus! {

/// One price level of a ladder: the orders resting at `price`, oldest first.
#[derive(Debug)]
pub struct LimitLevel {
    pub price: Price,
    pub orders: Vec<Order>,
}

/// Every order of `q` rests at `price` on `side` and has something left.
pub open spec fn queue_ok(q: Seq<Order>, price: int, side: OrderType) -> bool {
    forall|i: int|
        0 <= i < q.len() ==> {
            &&& (#[trigger] q[i]).price == price
            &&& q[i].amount > 0
            &&& q[i].order_type == side
        }
}

/// The quantity outstanding in `q`: the sum of what remains of its orders.
pub open spec fn queue_total(q: Seq<Order>) -> int
    decreases q.len(),
{
    if q.len() == 0 {
        0
    } else {
        q[0].amount + queue_total(q.drop_first())
    }
}

/// The quantity traded by `fills`: the sum of their amounts.
pub open spec fn fills_total(fills: Seq<Fill>) -> int
    decreases fills.len(),
{
    if fills.len() == 0 {
        0
    } else {
        fills[0].amount + fills_total(fills.drop_first())
    }
}

/// What matching an incoming amount against one queue yields.
pub struct QueueMatch {
    /// The queue afterwards.
    pub queue: Seq<Order>,
    /// The fills, in the order in which they happened.
    pub fills: Seq<Fill>,
    /// What is left of the incoming amount.
    pub rest: int,
}

/// `order` with `amount` traded away from it.
pub open spec fn reduced(order: Order, amount: int) -> Order {
    Order { amount: (order.amount - amount) as i32, ..order }
}

/// Matches `amount` against `q` in strict FIFO order. The front order trades
/// the smaller of the two remainders; an order that is used up leaves the
/// queue and the next one comes up, until the amount or the queue runs out.
pub open spec fn match_queue(q: Seq<Order>, taker: Taker, amount: int) -> QueueMatch
    decreases q.len(),
{
    if q.len() == 0 || amount <= 0 {
        QueueMatch { queue: q, fills: Seq::empty(), rest: amount }
    } else if amount < q[0].amount {
        QueueMatch {
            queue: q.update(0, reduced(q[0], amount)),
            fills: seq![fill_between(taker, q[0], amount)],
            rest: 0,
        }
    } else {
        let later = match_queue(q.drop_first(), taker, amount - q[0].amount);
        QueueMatch {
            queue: later.queue,
            fills: seq![fill_between(taker, q[0], q[0].amount as int)] + later.fills,
            rest: later.rest,
        }
    }
}

/// The total of two runs of fills is the sum of their totals.
pub proof fn lemma_fills_total_concat(a: Seq<Fill>, b: Seq<Fill>)
    ensures
        fills_total(a + b) == fills_total(a) + fills_total(b),
    decreases a.len(),
{
    if a.len() == 0 {
        assert(a + b =~= b);
    } else {
        assert((a + b).drop_first() =~= a.drop_first() + b);
        lemma_fills_total_concat(a.drop_first(), b);
    }
}

/// What a match leaves behind. The queue keeps its price and side and holds
/// no emptied order; the incoming amount is left over only if the queue was
/// used up; and quantity is conserved on both sides of the match.
pub proof fn lemma_match_queue(q: Seq<Order>, taker: Taker, amount: int, price: int, side: OrderType)
    requires
        queue_ok(q, price, side),
        amount >= 0,
    ensures
        ({
            let m = match_queue(q, taker, amount);
            &&& queue_ok(m.queue, price, side)
            &&& m.queue.len() <= q.len()
            &&& 0 <= m.rest <= amount
            &&& m.rest > 0 ==> m.queue.len() == 0
            &&& m.fills.len() <= q.len()
            &&& fills_total(m.fills) + m.rest == amount
            &&& fills_total(m.fills) + queue_total(m.queue) == queue_total(q)
        }),
    decreases q.len(),
{
    let m = match_queue(q, taker, amount);
    if q.len() == 0 || amount <= 0 {
    } else if amount < q[0].amount {
        assert(m.queue.drop_first() =~= q.drop_first());
        assert(m.fills.drop_first() =~= Seq::<Fill>::empty());
        assert(fills_total(Seq::<Fill>::empty()) == 0);
    } else {
        let later = match_queue(q.drop_first(), taker, amount - q[0].amount);
        assert(queue_ok(q.drop_first(), price, side)) by {
            assert forall|i: int| 0 <= i < q.drop_first().len() implies {
                &&& (#[trigger] q.drop_first()[i]).price == price
                &&& q.drop_first()[i].amount > 0
                &&& q.drop_first()[i].order_type == side
            } by {
                assert(q.drop_first()[i] == q[i + 1]);
            }
        }
        lemma_match_queue(q.drop_first(), taker, amount - q[0].amount, price, side);
        let head = seq![fill_between(taker, q[0], q[0].amount as int)];
        lemma_fills_total_concat(head, later.fills);
        assert(head.drop_first() =~= Seq::<Fill>::empty());
        assert(fills_total(Seq::<Fill>::empty()) == 0);
    }
}

/// The quantity outstanding in a queue of live orders is not negative.
pub proof fn lemma_queue_total_bounds(q: Seq<Order>, price: int, side: OrderType)
    requires
        queue_ok(q, price, side),
    ensures
        queue_total(q) >= 0,
        q.len() > 0 ==> queue_total(q) >= q[0].amount,
    decreases q.len(),
{
    if q.len() > 0 {
        assert forall|i: int| 0 <= i < q.drop_first().len() implies {
            &&& (#[trigger] q.drop_first()[i]).price == price
            &&& q.drop_first()[i].amount > 0
            &&& q.drop_first()[i].order_type == side
        } by {
            assert(q.drop_first()[i] == q[i + 1]);
        }
        lemma_queue_total_bounds(q.drop_first(), price, side);
    }
}

/// The part of `amount` that is traded against the order at position `index`
/// of `q`: what is left of the amount once the orders ahead of that one have
/// been served in full, up to what that order has left.
pub open spec fn taken(q: Seq<Order>, amount: int, index: int) -> int {
    let ahead = queue_total(q.subrange(0, index));
    if amount <= ahead {
        0
    } else if amount - ahead < q[index].amount {
        amount - ahead
    } else {
        q[index].amount as int
    }
}

/// The number of orders at the front of `q` that `amount` uses up entirely.
pub open spec fn used_up(q: Seq<Order>, amount: int) -> int
    decreases q.len(),
{
    if q.len() == 0 || amount < q[0].amount {
        0
    } else {
        1 + used_up(q.drop_first(), amount - q[0].amount)
    }
}

/// The orders ahead of position `index` are the front order and the orders
/// ahead of position `index - 1` in the rest of the queue.
proof fn lemma_ahead_step(q: Seq<Order>, index: int)
    requires
        1 <= index <= q.len(),
    ensures
        queue_total(q.subrange(0, index)) == q[0].amount + queue_total(
            q.drop_first().subrange(0, index - 1),
        ),
{
    assert(q.subrange(0, index).drop_first() =~= q.drop_first().subrange(0, index - 1));
}

/// Strict FIFO, order by order. Matching `amount` against `q` trades with
/// the orders of `q` from the front, each for `taken` of the amount: the
/// first `used_up` orders are served in full and leave the queue, at most one
/// more is served in part and stays at the front with the rest of its
/// amount, and the orders behind it are untouched. Fill number `i` records
/// the trade with order number `i`; so an order is hit only after every
/// order that came before it at this price has been served in full.
pub proof fn lemma_match_queue_fifo(q: Seq<Order>, taker: Taker, amount: int, price: int, side: OrderType)
    requires
        queue_ok(q, price, side),
        amount >= 0,
    ensures
        ({
            let m = match_queue(q, taker, amount);
            let gone = used_up(q, amount);
            &&& 0 <= gone <= q.len()
            &&& m.queue.len() == q.len() - gone
            &&& gone <= m.fills.len() <= gone + 1
            &&& m.fills.len() <= q.len()
            &&& forall|i: int| 0 <= i < gone ==> #[trigger] taken(q, amount, i) == q[i].amount
            &&& forall|i: int|
                gone <= i < q.len() ==> {
                    &&& 0 <= #[trigger] taken(q, amount, i) < q[i].amount
                    &&& m.queue[i - gone] == reduced(q[i], taken(q, amount, i))
                }
            &&& forall|i: int|
                0 <= i < m.fills.len() ==> {
                    &&& taken(q, amount, i) > 0
                    &&& #[trigger] m.fills[i] == fill_between(taker, q[i], taken(q, amount, i))
                }
            &&& forall|i: int| m.fills.len() <= i < q.len() ==> #[trigger] taken(q, amount, i) == 0
        }),
    decreases q.len(),
{
    let m = match_queue(q, taker, amount);
    let gone = used_up(q, amount);
    if q.len() == 0 {
    } else {
        assert(q.subrange(0, 0) =~= Seq::<Order>::empty());
        assert(queue_total(q.subrange(0, 0)) == 0);
        let rest = q.drop_first();
        assert(queue_ok(rest, price, side)) by {
            assert forall|i: int| 0 <= i < rest.len() implies {
                &&& (#[trigger] rest[i]).price == price
                &&& rest[i].amount > 0
                &&& rest[i].order_type == side
            } by {
                assert(rest[i] == q[i + 1]);
            }
        }
        if amount < q[0].amount {
            assert forall|i: int| 1 <= i < q.len() implies #[trigger] taken(q, amount, i) == 0 by {
                lemma_ahead_step(q, i);
                assert(queue_ok(rest.subrange(0, i - 1), price, side));
                lemma_queue_total_bounds(rest.subrange(0, i - 1), price, side);
            }
            assert forall|i: int| gone <= i < q.len() implies {
                &&& 0 <= #[trigger] taken(q, amount, i) < q[i].amount
                &&& m.queue[i - gone] == reduced(q[i], taken(q, amount, i))
            } by {
                if i >= 1 {
                    assert(taken(q, amount, i) == 0);
                }
            }
        } else {
            let less = amount - q[0].amount;
            let later = match_queue(rest, taker, less);
            lemma_match_queue_fifo(rest, taker, less, price, side);
            assert forall|i: int| 1 <= i < q.len() implies #[trigger] taken(q, amount, i) == taken(
                rest,
                less,
                i - 1,
            ) by {
                lemma_ahead_step(q, i);
                assert(q[i] == rest[i - 1]);
            }
            assert forall|i: int| 0 <= i < gone implies #[trigger] taken(q, amount, i) == q[i].amount by {
                if i >= 1 {
                    assert(taken(q, amount, i) == taken(rest, less, i - 1));
                    assert(q[i] == rest[i - 1]);
                }
            }
            assert forall|i: int| gone <= i < q.len() implies {
                &&& 0 <= #[trigger] taken(q, amount, i) < q[i].amount
                &&& m.queue[i - gone] == reduced(q[i], taken(q, amount, i))
            } by {
                assert(taken(q, amount, i) == taken(rest, less, i - 1));
                assert(q[i] == rest[i - 1]);
            }
            assert forall|i: int| 0 <= i < m.fills.len() implies {
                &&& taken(q, amount, i) > 0
                &&& #[trigger] m.fills[i] == fill_between(taker, q[i], taken(q, amount, i))
            } by {
                if i >= 1 {
                    assert(taken(q, amount, i) == taken(rest, less, i - 1));
                    assert(q[i] == rest[i - 1]);
                    assert(m.fills[i] == later.fills[i - 1]);
                }
            }
            assert forall|i: int| m.fills.len() <= i < q.len() implies #[trigger] taken(q, amount, i) == 0 by {
                assert(taken(q, amount, i) == taken(rest, less, i - 1));
            }
        }
    }
}

impl LimitLevel {
    /// The level holds only live orders of `side` at its own price.
    pub open spec fn wf(&self, side: OrderType) -> bool {
        queue_ok(self.orders@, self.price as int, side)
    }

    /// Whether no order rests at this level.
    pub fn is_empty(&self) -> (empty: bool)
        ensures
            empty == (self.orders@.len() == 0),
    {
        self.orders.len() == 0
    }

    /// The oldest order of this level, the next to be matched.
    pub fn front(&self) -> (order: Option<&Order>)
        ensures
            match order {
                Some(front) => self.orders@.len() > 0 && *front == self.orders@[0],
                None => self.orders@.len() == 0,
            },
    {
        if self.orders.len() == 0 {
            None
        } else {
            Some(&self.orders[0])
        }
    }

    /// Puts `order` at the back of the queue of this level.
    pub fn insert(&mut self, order: Order)
        requires
            order.price == old(self).price,
            order.amount > 0,
        ensures
            final(self).price == old(self).price,
            final(self).orders@ == old(self).orders@.push(order),
            old(self).wf(order.order_type) ==> final(self).wf(order.order_type),
    {
        self.orders.push(order);
    }

    /// Takes the order at position `index` out of the queue; the orders
    /// behind it move up and keep their order.
    pub fn remove_at(&mut self, index: usize) -> (order: Order)
        requires
            index < old(self).orders@.len(),
        ensures
            final(self).price == old(self).price,
            order == old(self).orders@[index as int],
            final(self).orders@ == old(self).orders@.remove(index as int),
    {
        self.orders.remove(index)
    }

    /// Matches `amount` from `taker` against this level, oldest order first.
    /// The fills are appended to `fills` in the order in which they happen;
    /// the result is what is left of the amount.
    pub fn match_level(&mut self, taker: Taker, amount: i32, fills: &mut Vec<Fill>) -> (rest: i32)
        requires
            old(self).wf(taker.side.opposite()),
            amount >= 0,
        ensures
            final(self).price == old(self).price,
            final(self).wf(taker.side.opposite()),
            final(self).orders@ == match_queue(old(self).orders@, taker, amount as int).queue,
            final(fills)@ == old(fills)@ + match_queue(old(self).orders@, taker, amount as int).fills,
            rest == match_queue(old(self).orders@, taker, amount as int).rest,
    {
        let ghost full = match_queue(self.orders@, taker, amount as int);
        let ghost before = fills@;
        let mut remaining: i32 = amount;
        proof {
            assert(before + full.fills =~= fills@ + full.fills);
        }
        while remaining > 0 && !self.is_empty()
            invariant
                self.price == old(self).price,
                self.wf(taker.side.opposite()),
                remaining >= 0,
                full.queue == match_queue(self.orders@, taker, remaining as int).queue,
                full.rest == match_queue(self.orders@, taker, remaining as int).rest,
                before + full.fills == fills@ + match_queue(self.orders@, taker, remaining as int).fills,
            decreases self.orders@.len() + remaining,
        {
            let ghost q = self.orders@;
            let ghost sofar = fills@;
            let ghost cur = match_queue(q, taker, remaining as int);
            let front: Order = *self.front().unwrap();
            let traded: i32 = if remaining < front.amount { remaining } else { front.amount };
            fills.push(make_fill(taker, &front, traded));
            if traded == front.amount {
                self.remove_at(0);
                proof {
                    assert(self.orders@ =~= q.drop_first());
                    let later = match_queue(q.drop_first(), taker, remaining - front.amount);
                    assert(fills@ + later.fills =~= sofar + cur.fills);
                }
            } else {
                self.orders[0].amount = front.amount - traded;
                proof {
                    assert(self.orders@ =~= q.update(0, reduced(q[0], remaining as int)));
                    assert(fills@ + Seq::<Fill>::empty() =~= sofar + cur.fills);
                }
            }
            remaining = remaining - traded;
        }
        proof {
            assert(fills@ + Seq::<Fill>::empty() =~= fills@);
        }
        remaining
    }

    /// The quantity outstanding at this level.
    pub fn outstanding(&self) -> (total: u128)
        requires
            forall|i: int| 0 <= i < self.orders@.len() ==> (#[trigger] self.orders@[i]).amount > 0,
        ensures
            total == queue_total(self.orders@),
    {
        let mut total: u128 = 0;
        let mut i: usize = 0;
        proof {
            assert(self.orders@.subrange(0, self.orders@.len() as int) =~= self.orders@);
        }
        while i < self.orders.len()
            invariant
                i <= self.orders@.len(),
                forall|j: int| 0 <= j < self.orders@.len() ==> (#[trigger] self.orders@[j]).amount > 0,
                total <= i * 0x7fff_ffff,
                total + queue_total(self.orders@.subrange(i as int, self.orders@.len() as int))
                    == queue_total(self.orders@),
            decreases self.orders@.len() - i,
        {
            proof {
                let tail = self.orders@.subrange(i as int, self.orders@.len() as int);
                assert(tail[0] == self.orders@[i as int]);
                assert(tail.drop_first() =~= self.orders@.subrange(i + 1, self.orders@.len() as int));
            }
            total = total + self.orders[i].amount as u128;
            i = i + 1;
        }
        total
    }
}

} // verus!
