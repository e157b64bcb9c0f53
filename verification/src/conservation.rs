//! Quantity is conserved: what a matching step takes from the makers is
//! what the taker gets, and a step that reports nothing changes nothing.

use crate::level::{no_empty_level, LevelView};
use crate::matching::match_from;
use crate::order::OrderView;
use crate::priority::{flatten, lemma_side_sweep_is_queue_sweep};
use crate::sweep::{fill_of, queue_sweep, side_sweep};
use vstd::prelude::*;

verus! {

/// Every order of the queue has its filled quantity within its quantity.
pub open spec fn all_within_quantity(queue: Seq<OrderView>) -> bool {
    forall|i: int| 0 <= i < queue.len() ==> (#[trigger] queue[i]).within_quantity()
}

/// What the orders of a queue have left between them.
pub open spec fn total_remaining(queue: Seq<OrderView>) -> nat
    decreases queue.len(),
{
    if queue.len() == 0 {
        0
    } else {
        queue.first().remaining() + total_remaining(queue.drop_first())
    }
}

/// What the makers of a side have left between them.
pub open spec fn resting(levels: Seq<LevelView>) -> nat {
    total_remaining(flatten(levels))
}

/// The position of the taker at which the matching step from `cursor`
/// settles: the first from there on that does not have to be filled in full,
/// or that the makers can fill. The length of the queue where there is none.
pub open spec fn settles_at(takers: Seq<OrderView>, makers: Seq<LevelView>, cursor: int) -> int
    decreases takers.len() - cursor,
{
    if cursor < 0 || cursor >= takers.len() {
        takers.len() as int
    } else if takers[cursor].only_full_fill && side_sweep(makers, takers[cursor].remaining()).need
        > 0 {
        settles_at(takers, makers, cursor + 1)
    } else {
        cursor
    }
}

/// A sweep of a queue conserves quantity: what the makers had left is what
/// they have left after it and what was taken off the need.
pub proof fn lemma_queue_sweep_conserves(queue: Seq<OrderView>, need: nat)
    requires
        all_within_quantity(queue),
    ensures
        queue_sweep(queue, need).need <= need,
        total_remaining(queue) == total_remaining(queue_sweep(queue, need).rest) + (need
            - queue_sweep(queue, need).need),
        all_within_quantity(queue_sweep(queue, need).rest),
    decreases queue.len(),
{
    if queue.len() > 0 {
        let maker = queue.first();
        let tail = queue.drop_first();
        let fill = fill_of(maker, need);
        let left = (need - fill) as nat;
        let after = maker.filled_by(fill);
        let later = queue_sweep(tail, left);
        assert(all_within_quantity(tail)) by {
            assert forall|i: int| 0 <= i < tail.len() implies (#[trigger] tail[i]).within_quantity() by {
                assert(tail[i] == queue[i + 1]);
            }
        }
        assert(maker.within_quantity());
        lemma_queue_sweep_conserves(tail, left);
        let rest = queue_sweep(queue, need).rest;
        if rest.len() > later.rest.len() {
            assert(rest.first() == after);
            assert(rest.drop_first() == later.rest);
            assert forall|i: int| 0 <= i < rest.len() implies (#[trigger] rest[i]).within_quantity() by {
                if i > 0 {
                    assert(rest[i] == later.rest[i - 1]);
                }
            }
        }
    } else {
        assert(queue_sweep(queue, need).rest.len() == 0);
    }
}

/// A sweep of a side conserves quantity.
pub proof fn lemma_side_sweep_conserves(levels: Seq<LevelView>, need: nat)
    requires
        all_within_quantity(flatten(levels)),
    ensures
        side_sweep(levels, need).need <= need,
        resting(levels) == resting(side_sweep(levels, need).levels) + (need - side_sweep(
            levels,
            need,
        ).need),
        all_within_quantity(flatten(side_sweep(levels, need).levels)),
{
    lemma_side_sweep_is_queue_sweep(levels, need);
    lemma_queue_sweep_conserves(flatten(levels), need);
}

/// A sweep of a queue that makes no trade leaves the queue and the need as
/// they were.
pub proof fn lemma_queue_untraded(queue: Seq<OrderView>, need: nat)
    requires
        queue_sweep(queue, need).trades.len() == 0,
    ensures
        queue_sweep(queue, need).rest == queue,
        queue_sweep(queue, need).need == need,
    decreases queue.len(),
{
    if queue.len() > 0 {
        let maker = queue.first();
        let tail = queue.drop_first();
        assert(fill_of(maker, need) == 0);
        assert(maker.filled_by(0) == maker);
        lemma_queue_untraded(tail, need);
        assert(seq![maker] + tail == queue);
    } else {
        assert(queue == Seq::<OrderView>::empty());
    }
}

/// A sweep of a side that makes no trade leaves the side and the need as
/// they were.
pub proof fn lemma_side_untraded(levels: Seq<LevelView>, need: nat)
    requires
        no_empty_level(levels),
        side_sweep(levels, need).trades.len() == 0,
    ensures
        side_sweep(levels, need).levels == levels,
        side_sweep(levels, need).need == need,
    decreases levels.len(),
{
    if need > 0 && levels.len() > 0 {
        let level = levels.first();
        let tail = levels.drop_first();
        let here = queue_sweep(level.orders, need);
        let later = side_sweep(tail, here.need);
        assert(here.trades.len() == 0 && later.trades.len() == 0) by {
            assert((here.trades + later.trades).len() == here.trades.len() + later.trades.len());
        }
        lemma_queue_untraded(level.orders, need);
        assert(no_empty_level(tail)) by {
            assert forall|i: int| 0 <= i < tail.len() implies (#[trigger] tail[i]).orders.len() > 0 by {
                assert(tail[i] == levels[i + 1]);
            }
        }
        lemma_side_untraded(tail, need);
        assert(levels[0].orders.len() > 0);
        assert(seq![LevelView { price: level.price, orders: here.rest }] + tail == levels);
    }
}

/// A matching step that reports nothing leaves the takers and the makers as
/// they were. This holds also of a taker that must be filled in full and
/// that the makers cannot fill: no maker is touched on its account.
pub proof fn lemma_nothing_reported_nothing_changed(
    takers: Seq<OrderView>,
    makers: Seq<LevelView>,
    cursor: int,
)
    requires
        no_empty_level(makers),
        match_from(takers, makers, cursor).fill is None,
    ensures
        match_from(takers, makers, cursor).takers == takers,
        match_from(takers, makers, cursor).makers == makers,
    decreases takers.len() - cursor,
{
    if 0 <= cursor < takers.len() {
        let taker = takers[cursor];
        let s = side_sweep(makers, taker.remaining());
        if taker.only_full_fill && s.need > 0 {
            lemma_nothing_reported_nothing_changed(takers, makers, cursor + 1);
        } else {
            lemma_side_untraded(makers, taker.remaining());
        }
    }
}

/// What a matching step reports is the fill of the taker at which it
/// settles, and quantity is conserved: what the makers gave and what the
/// taker still needs after the step make up what it needed before. A taker
/// that must be filled in full is reported only when nothing of its need is
/// left, and only a taker with nothing left leaves its queue.
pub proof fn lemma_match_conserves(takers: Seq<OrderView>, makers: Seq<LevelView>, cursor: int)
    requires
        0 <= cursor,
        all_within_quantity(takers),
        all_within_quantity(flatten(makers)),
    ensures
        match match_from(takers, makers, cursor).fill {
            Some((after, trades)) => {
                let at = settles_at(takers, makers, cursor);
                let m = match_from(takers, makers, cursor);
                &&& cursor <= at < takers.len()
                &&& after.remaining() <= takers[at].remaining()
                &&& after == takers[at].filled_by((takers[at].remaining() - after.remaining()) as nat)
                &&& resting(makers) - resting(m.makers) + after.remaining() == takers[at].remaining()
                &&& after.only_full_fill ==> after.remaining() == 0
                &&& m.takers == if after.remaining() == 0 {
                    takers.remove(at)
                } else {
                    takers.update(at, after)
                }
            },
            None => resting(match_from(takers, makers, cursor).makers) == resting(makers),
        },
    decreases takers.len() - cursor,
{
    if cursor < takers.len() {
        let taker = takers[cursor];
        let need = taker.remaining();
        let s = side_sweep(makers, need);
        assert(taker.within_quantity());
        lemma_side_sweep_conserves(makers, need);
        if taker.only_full_fill && s.need > 0 {
            lemma_match_conserves(takers, makers, cursor + 1);
        } else if s.trades.len() == 0 {
            lemma_side_sweep_is_queue_sweep(makers, need);
            lemma_queue_untraded(flatten(makers), need);
        }
    }
}

} // verus!
