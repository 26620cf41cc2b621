//! A ladder is one side of the book: a queue per price, indexed by the
//! distance of the price from the lowest price of the book. This module says
//! how an incoming amount sweeps a ladder, level after level.

use vstd::prelude::*;
use crate::level::{
    LimitLevel, fills_total, lemma_fills_total_concat, lemma_match_queue, lemma_match_queue_fifo,
    lemma_queue_total_bounds, match_queue, queue_ok, queue_total,
};
use crate::order::{Fill, Order, OrderType, Taker};

verus! {

/// The queues of a ladder, lowest price first.
pub open spec fn ladder_view(levels: Seq<LimitLevel>) -> Seq<Seq<Order>> {
    Seq::new(levels.len(), |i: int| levels[i].orders@)
}

/// Level `i` of the ladder holds only live orders of `side` priced at
/// `min_price + i`.
pub open spec fn ladder_ok(ladder: Seq<Seq<Order>>, min_price: int, side: OrderType) -> bool {
    forall|i: int| 0 <= i < ladder.len() ==> queue_ok(#[trigger] ladder[i], min_price + i, side)
}

/// The level that a taker on `side` visits after `level`. A sell walks the
/// bids downward from the highest, a buy walks the asks upward from the
/// lowest: in both cases from the better price to the worse.
pub open spec fn next_level(side: OrderType, level: int) -> int {
    match side {
        OrderType::Sell => level - 1,
        OrderType::Buy => level + 1,
    }
}

/// Level `i` is among the `count` levels that a taker on `side` visits when
/// it starts at `start`.
pub open spec fn visits(side: OrderType, start: int, count: int, i: int) -> bool {
    match side {
        OrderType::Sell => start - count < i <= start,
        OrderType::Buy => start <= i < start + count,
    }
}

/// A walk of `count` levels from `start` stays inside a ladder of `len`
/// levels.
pub open spec fn sweep_fits(len: int, side: OrderType, start: int, count: int) -> bool {
    &&& count >= 0
    &&& match side {
        OrderType::Sell => start < len && start - count >= -1,
        OrderType::Buy => start >= 0 && start + count <= len,
    }
}

/// What sweeping a ladder yields.
pub struct Sweep {
    /// The ladder afterwards.
    pub ladder: Seq<Seq<Order>>,
    /// The fills, in the order in which they happened.
    pub fills: Seq<Fill>,
    /// What is left of the incoming amount.
    pub rest: int,
}

/// Sweeps `count` levels of `ladder` with `amount`, starting at level `start`
/// and moving on as `next_level` says. Each level is matched in FIFO order
/// with what the levels before it left over.
pub open spec fn sweep(ladder: Seq<Seq<Order>>, taker: Taker, start: int, count: int, amount: int) -> Sweep
    decreases count,
{
    if count <= 0 {
        Sweep { ladder, fills: Seq::empty(), rest: amount }
    } else {
        let here = match_queue(ladder[start], taker, amount);
        let later = sweep(
            ladder.update(start, here.queue),
            taker,
            next_level(taker.side, start),
            count - 1,
            here.rest,
        );
        Sweep { ladder: later.ladder, fills: here.fills + later.fills, rest: later.rest }
    }
}

/// What a sweep leaves behind. The ladder keeps its shape and its levels stay
/// well formed; levels that were not visited are untouched, and no level
/// grows; the incoming amount is left over only if every visited level was
/// used up; and the fills plus the rest add up to the incoming amount.
pub proof fn lemma_sweep(
    ladder: Seq<Seq<Order>>,
    taker: Taker,
    start: int,
    count: int,
    amount: int,
    min_price: int,
)
    requires
        ladder_ok(ladder, min_price, taker.side.opposite()),
        sweep_fits(ladder.len() as int, taker.side, start, count),
        amount >= 0,
    ensures
        ({
            let s = sweep(ladder, taker, start, count, amount);
            &&& s.ladder.len() == ladder.len()
            &&& ladder_ok(s.ladder, min_price, taker.side.opposite())
            &&& forall|i: int|
                0 <= i < ladder.len() && !visits(taker.side, start, count, i) ==> #[trigger] s.ladder[i]
                    == ladder[i]
            &&& forall|i: int| 0 <= i < ladder.len() ==> (#[trigger] s.ladder[i]).len() <= ladder[i].len()
            &&& 0 <= s.rest <= amount
            &&& s.rest > 0 ==> forall|i: int|
                visits(taker.side, start, count, i) ==> (#[trigger] s.ladder[i]).len() == 0
            &&& fills_total(s.fills) + s.rest == amount
        }),
    decreases count,
{
    if count > 0 {
        let side = taker.side;
        let here = match_queue(ladder[start], taker, amount);
        let stepped = ladder.update(start, here.queue);
        let next = next_level(side, start);
        let later = sweep(stepped, taker, next, count - 1, here.rest);
        lemma_match_queue(ladder[start], taker, amount, min_price + start, side.opposite());
        assert(ladder_ok(stepped, min_price, side.opposite())) by {
            assert forall|i: int| 0 <= i < stepped.len() implies queue_ok(
                #[trigger] stepped[i],
                min_price + i,
                side.opposite(),
            ) by {
                if i != start {
                    assert(stepped[i] == ladder[i]);
                }
            }
        }
        lemma_sweep(stepped, taker, next, count - 1, here.rest, min_price);
        lemma_fills_total_concat(here.fills, later.fills);
        assert(!visits(side, next, count - 1, start));
        assert(later.ladder[start] == stepped[start]);
        assert forall|i: int| 0 <= i < ladder.len() && !visits(side, start, count, i) implies #[trigger] later.ladder[i]
            == ladder[i] by {
            assert(!visits(side, next, count - 1, i));
            assert(later.ladder[i] == stepped[i]);
        }
        assert forall|i: int| 0 <= i < ladder.len() implies (#[trigger] later.ladder[i]).len()
            <= ladder[i].len() by {
            assert(later.ladder[i].len() <= stepped[i].len());
        }
        if later.rest > 0 {
            assert forall|i: int| visits(side, start, count, i) implies (#[trigger] later.ladder[i]).len()
                == 0 by {
                if i != start {
                    assert(visits(side, next, count - 1, i));
                }
            }
        }
    } else {
        assert(fills_total(Seq::<Fill>::empty()) == 0);
    }
}

/// An amount of zero changes nothing and fills nothing.
pub proof fn lemma_sweep_nothing(ladder: Seq<Seq<Order>>, taker: Taker, start: int, count: int)
    requires
        sweep_fits(ladder.len() as int, taker.side, start, count),
    ensures
        sweep(ladder, taker, start, count, 0) == (Sweep { ladder, fills: Seq::empty(), rest: 0 }),
    decreases count,
{
    if count > 0 {
        assert(ladder.update(start, ladder[start]) =~= ladder);
        lemma_sweep_nothing(ladder, taker, next_level(taker.side, start), count - 1);
        assert(Seq::<Fill>::empty() + Seq::<Fill>::empty() =~= Seq::<Fill>::empty());
    }
}

/// Empty levels at the start of a walk can be skipped: if the first `skip`
/// levels visited hold no order, the sweep is that of the remaining levels.
pub proof fn lemma_sweep_skip(
    ladder: Seq<Seq<Order>>,
    taker: Taker,
    start: int,
    count: int,
    amount: int,
    skip: int,
)
    requires
        sweep_fits(ladder.len() as int, taker.side, start, count),
        0 <= skip <= count,
        forall|i: int| visits(taker.side, start, skip, i) ==> (#[trigger] ladder[i]).len() == 0,
    ensures
        sweep(ladder, taker, start, count, amount) == match taker.side {
            OrderType::Sell => sweep(ladder, taker, start - skip, count - skip, amount),
            OrderType::Buy => sweep(ladder, taker, start + skip, count - skip, amount),
        },
    decreases skip,
{
    if skip > 0 {
        assert(visits(taker.side, start, skip, start));
        assert(ladder.update(start, ladder[start]) =~= ladder);
        let next = next_level(taker.side, start);
        assert forall|i: int| visits(taker.side, next, skip - 1, i) implies (#[trigger] ladder[i]).len()
            == 0 by {
            assert(visits(taker.side, start, skip, i));
        }
        lemma_sweep_skip(ladder, taker, next, count - 1, amount, skip - 1);
        let later = sweep(ladder, taker, next, count - 1, amount);
        assert(Seq::<Fill>::empty() + later.fills =~= later.fills);
    }
}

/// The number of levels that a taker on `side` walking from `start` passes
/// before it comes to `level`.
pub open spec fn steps_to(side: OrderType, start: int, level: int) -> int {
    match side {
        OrderType::Sell => start - level,
        OrderType::Buy => level - start,
    }
}

/// The level that a taker on `side` reaches `steps` levels after `start`.
pub open spec fn level_after(side: OrderType, start: int, steps: int) -> int {
    match side {
        OrderType::Sell => start - steps,
        OrderType::Buy => start + steps,
    }
}

/// A sweep is the sweep of its first `steps` levels followed by the sweep of
/// the others with what the first left over.
pub proof fn lemma_sweep_split(
    ladder: Seq<Seq<Order>>,
    taker: Taker,
    start: int,
    count: int,
    amount: int,
    steps: int,
)
    requires
        0 <= steps <= count,
    ensures
        ({
            let first = sweep(ladder, taker, start, steps, amount);
            let second = sweep(
                first.ladder,
                taker,
                level_after(taker.side, start, steps),
                count - steps,
                first.rest,
            );
            sweep(ladder, taker, start, count, amount) == (Sweep {
                ladder: second.ladder,
                fills: first.fills + second.fills,
                rest: second.rest,
            })
        }),
    decreases steps,
{
    let first = sweep(ladder, taker, start, steps, amount);
    let second = sweep(first.ladder, taker, level_after(taker.side, start, steps), count - steps, first.rest);
    if steps == 0 {
        assert(first.fills + second.fills =~= second.fills);
    } else {
        let here = match_queue(ladder[start], taker, amount);
        let stepped = ladder.update(start, here.queue);
        let next = next_level(taker.side, start);
        lemma_sweep_split(stepped, taker, next, count - 1, here.rest, steps - 1);
        let inner = sweep(stepped, taker, next, steps - 1, here.rest);
        assert(level_after(taker.side, next, steps - 1) == level_after(taker.side, start, steps));
        assert(here.fills + (inner.fills + second.fills) =~= (here.fills + inner.fills) + second.fills);
    }
}

/// What a sweep does at one level that it visits. The level is matched, as
/// it stood before the sweep, with what the levels before it left over; its
/// fills stand together in the sweep's fills, right after the fills of the
/// levels before it.
pub proof fn lemma_sweep_level(
    ladder: Seq<Seq<Order>>,
    taker: Taker,
    start: int,
    count: int,
    amount: int,
    min_price: int,
    level: int,
)
    requires
        ladder_ok(ladder, min_price, taker.side.opposite()),
        sweep_fits(ladder.len() as int, taker.side, start, count),
        amount >= 0,
        visits(taker.side, start, count, level),
    ensures
        ({
            let s = sweep(ladder, taker, start, count, amount);
            let before = sweep(ladder, taker, start, steps_to(taker.side, start, level), amount);
            let here = match_queue(ladder[level], taker, before.rest);
            &&& 0 <= before.rest <= amount
            &&& s.ladder[level] == here.queue
            &&& before.fills.len() + here.fills.len() <= s.fills.len()
            &&& s.fills.subrange(
                before.fills.len() as int,
                (before.fills.len() + here.fills.len()) as int,
            ) == here.fills
        }),
{
    let side = taker.side;
    let steps = steps_to(side, start, level);
    let before = sweep(ladder, taker, start, steps, amount);
    lemma_sweep_split(ladder, taker, start, count, amount, steps);
    lemma_sweep(ladder, taker, start, steps, amount, min_price);
    assert(!visits(side, start, steps, level));
    assert(before.ladder[level] == ladder[level]);
    let here = match_queue(ladder[level], taker, before.rest);
    let stepped = before.ladder.update(level, here.queue);
    let next = next_level(side, level);
    let later = sweep(stepped, taker, next, count - steps - 1, here.rest);
    lemma_match_queue(ladder[level], taker, before.rest, min_price + level, side.opposite());
    assert(ladder_ok(stepped, min_price, side.opposite())) by {
        assert forall|i: int| 0 <= i < stepped.len() implies queue_ok(
            #[trigger] stepped[i],
            min_price + i,
            side.opposite(),
        ) by {
            if i != level {
                assert(stepped[i] == before.ladder[i]);
            }
        }
    }
    lemma_sweep(stepped, taker, next, count - steps - 1, here.rest, min_price);
    assert(!visits(side, next, count - steps - 1, level));
    assert(later.ladder[level] == stepped[level]);
    let s = sweep(ladder, taker, start, count, amount);
    assert(s.fills =~= before.fills + (here.fills + later.fills));
    assert(s.fills.subrange(before.fills.len() as int, (before.fills.len() + here.fills.len()) as int)
        =~= here.fills);
}

/// Best price first. Every fill of a sweep is priced at a level that the
/// sweep visits; the fills come in the order in which the levels are
/// visited; and when a level is hit, every level visited before it has been
/// emptied.
pub proof fn lemma_sweep_priority(
    ladder: Seq<Seq<Order>>,
    taker: Taker,
    start: int,
    count: int,
    amount: int,
    min_price: int,
)
    requires
        ladder_ok(ladder, min_price, taker.side.opposite()),
        sweep_fits(ladder.len() as int, taker.side, start, count),
        amount >= 0,
    ensures
        ({
            let s = sweep(ladder, taker, start, count, amount);
            &&& forall|k: int| 0 <= k < s.fills.len() ==> (#[trigger] s.fills[k]).amount > 0
            &&& forall|k: int|
                0 <= k < s.fills.len() ==> visits(
                    taker.side,
                    start,
                    count,
                    (#[trigger] s.fills[k]).price - min_price,
                )
            &&& forall|j: int, k: int|
                0 <= j <= k < s.fills.len() ==> steps_to(
                    taker.side,
                    start,
                    (#[trigger] s.fills[j]).price - min_price,
                ) <= steps_to(taker.side, start, (#[trigger] s.fills[k]).price - min_price)
            &&& forall|k: int, level: int|
                0 <= k < s.fills.len() && visits(taker.side, start, count, level) && steps_to(
                    taker.side,
                    start,
                    level,
                ) < steps_to(taker.side, start, (#[trigger] s.fills[k]).price - min_price) ==> (
                #[trigger] s.ladder[level]).len() == 0
        }),
    decreases count,
{
    if count > 0 {
        let side = taker.side;
        let here = match_queue(ladder[start], taker, amount);
        let stepped = ladder.update(start, here.queue);
        let next = next_level(side, start);
        let later = sweep(stepped, taker, next, count - 1, here.rest);
        let s = sweep(ladder, taker, start, count, amount);
        lemma_match_queue(ladder[start], taker, amount, min_price + start, side.opposite());
        lemma_match_queue_fifo(ladder[start], taker, amount, min_price + start, side.opposite());
        assert(ladder_ok(stepped, min_price, side.opposite())) by {
            assert forall|i: int| 0 <= i < stepped.len() implies queue_ok(
                #[trigger] stepped[i],
                min_price + i,
                side.opposite(),
            ) by {
                if i != start {
                    assert(stepped[i] == ladder[i]);
                }
            }
        }
        lemma_sweep(stepped, taker, next, count - 1, here.rest, min_price);
        lemma_sweep_priority(stepped, taker, next, count - 1, here.rest, min_price);
        if here.rest == 0 {
            lemma_sweep_nothing(stepped, taker, next, count - 1);
        }
        assert(!visits(side, next, count - 1, start));
        assert(later.ladder[start] == stepped[start]);
        let h = here.fills.len() as int;
        assert forall|k: int| 0 <= k < s.fills.len() implies {
            let at = (#[trigger] s.fills[k]).price - min_price;
            &&& s.fills[k].amount > 0
            &&& visits(side, start, count, at)
            &&& k < h ==> at == start
            &&& k >= h ==> visits(side, next, count - 1, at) && s.fills[k] == later.fills[k - h]
        } by {
            if k < h {
                assert(s.fills[k] == here.fills[k]);
                assert(ladder[start][k].price == min_price + start);
            } else {
                assert(s.fills[k] == later.fills[k - h]);
            }
        }
        assert forall|j: int, k: int| 0 <= j <= k < s.fills.len() implies steps_to(
            side,
            start,
            (#[trigger] s.fills[j]).price - min_price,
        ) <= steps_to(side, start, (#[trigger] s.fills[k]).price - min_price) by {
            if j >= h {
                assert(s.fills[j] == later.fills[j - h]);
                assert(s.fills[k] == later.fills[k - h]);
            }
        }
        assert forall|k: int, level: int|
            0 <= k < s.fills.len() && visits(side, start, count, level) && steps_to(side, start, level)
                < steps_to(side, start, (#[trigger] s.fills[k]).price - min_price) implies (
        #[trigger] s.ladder[level]).len() == 0 by {
            if k >= h {
                assert(s.fills[k] == later.fills[k - h]);
                if level != start {
                    assert(visits(side, next, count - 1, level));
                }
            }
        }
    }
}

/// The quantity outstanding at the `count` levels that a taker on `side`
/// visits from `start`: what a sweep of those levels can trade at most.
pub open spec fn visited_total(ladder: Seq<Seq<Order>>, side: OrderType, start: int, count: int) -> int
    decreases count,
{
    if count <= 0 {
        0
    } else {
        queue_total(ladder[start]) + visited_total(ladder, side, next_level(side, start), count - 1)
    }
}

/// A change at a level that a walk does not visit leaves the quantity
/// outstanding on the walk as it is.
proof fn lemma_visited_total_frame(
    ladder: Seq<Seq<Order>>,
    side: OrderType,
    start: int,
    count: int,
    at: int,
    queue: Seq<Order>,
)
    requires
        sweep_fits(ladder.len() as int, side, start, count),
        0 <= at < ladder.len(),
        !visits(side, start, count, at),
    ensures
        visited_total(ladder.update(at, queue), side, start, count) == visited_total(ladder, side, start, count),
    decreases count,
{
    if count > 0 {
        assert(visits(side, start, count, start));
        lemma_visited_total_frame(ladder, side, next_level(side, start), count - 1, at, queue);
    }
}

/// Quantity is conserved by a sweep. It trades the smaller of the incoming
/// amount and the quantity outstanding at the levels it visits; the
/// incoming amount is reduced by that much, and so is the quantity
/// outstanding at those levels.
pub proof fn lemma_sweep_totals(
    ladder: Seq<Seq<Order>>,
    taker: Taker,
    start: int,
    count: int,
    amount: int,
    min_price: int,
)
    requires
        ladder_ok(ladder, min_price, taker.side.opposite()),
        sweep_fits(ladder.len() as int, taker.side, start, count),
        amount >= 0,
    ensures
        ({
            let s = sweep(ladder, taker, start, count, amount);
            let available = visited_total(ladder, taker.side, start, count);
            &&& available >= 0
            &&& fills_total(s.fills) == if amount < available { amount } else { available }
            &&& s.rest == amount - fills_total(s.fills)
            &&& visited_total(s.ladder, taker.side, start, count) == available - fills_total(s.fills)
        }),
    decreases count,
{
    if count > 0 {
        let side = taker.side;
        let here = match_queue(ladder[start], taker, amount);
        let stepped = ladder.update(start, here.queue);
        let next = next_level(side, start);
        let later = sweep(stepped, taker, next, count - 1, here.rest);
        lemma_match_queue(ladder[start], taker, amount, min_price + start, side.opposite());
        lemma_queue_total_bounds(here.queue, min_price + start, side.opposite());
        assert(ladder_ok(stepped, min_price, side.opposite())) by {
            assert forall|i: int| 0 <= i < stepped.len() implies queue_ok(
                #[trigger] stepped[i],
                min_price + i,
                side.opposite(),
            ) by {
                if i != start {
                    assert(stepped[i] == ladder[i]);
                }
            }
        }
        lemma_sweep(stepped, taker, next, count - 1, here.rest, min_price);
        lemma_sweep_totals(stepped, taker, next, count - 1, here.rest, min_price);
        lemma_fills_total_concat(here.fills, later.fills);
        assert(!visits(side, next, count - 1, start));
        lemma_visited_total_frame(ladder, side, next, count - 1, start, here.queue);
        assert(later.ladder[start] == stepped[start]);
    } else {
        assert(fills_total(Seq::<Fill>::empty()) == 0);
    }
}

} // verus!
