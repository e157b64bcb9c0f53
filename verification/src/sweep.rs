//! The sweep: how one need for quantity is met from resting orders.
//!
//! Makers are visited in the order in which they are held: level by level,
//! best price first, and within a level oldest first. Each maker either is
//! passed by, gives a part of what it has left, or gives all of it and leaves
//! its queue. A maker that may only be filled in full is passed by where the
//! need is smaller than what it has left.

use crate::level::{levels_view, queue_view, LevelView, PriceLevel};
use crate::order::{Order, OrderView};
use crate::u256::U256;
use std::collections::VecDeque;
use vstd::prelude::*;

verus! {

/// Whether a taker that still needs `need` trades with `maker`.
pub open spec fn trades_with(maker: OrderView, need: nat) -> bool {
    need > 0 && (maker.remaining() <= need || !maker.only_full_fill)
}

/// Whether `maker` is consumed entirely, and so leaves its queue.
pub open spec fn consumes(maker: OrderView, need: nat) -> bool {
    need > 0 && maker.remaining() <= need
}

/// The quantity that `maker` gives to a taker that still needs `need`.
pub open spec fn fill_of(maker: OrderView, need: nat) -> nat {
    if !trades_with(maker, need) {
        0
    } else if maker.remaining() <= need {
        maker.remaining()
    } else {
        need
    }
}

/// What a sweep leaves of a queue, the trades it made, and the need that is
/// still open after it.
pub struct QueueSweep {
    pub rest: Seq<OrderView>,
    pub trades: Seq<OrderView>,
    pub need: nat,
}

/// What a sweep leaves of a side, the trades it made, and the need that is
/// still open after it.
pub struct SideSweep {
    pub levels: Seq<LevelView>,
    pub trades: Seq<OrderView>,
    pub need: nat,
}

/// Sweeps one queue, oldest maker first. A trade is the maker's state after
/// its fill.
pub open spec fn queue_sweep(queue: Seq<OrderView>, need: nat) -> QueueSweep
    decreases queue.len(),
{
    if queue.len() == 0 {
        QueueSweep { rest: Seq::empty(), trades: Seq::empty(), need }
    } else {
        let maker = queue.first();
        let fill = fill_of(maker, need);
        let after = maker.filled_by(fill);
        let later = queue_sweep(queue.drop_first(), (need - fill) as nat);
        QueueSweep {
            rest: if consumes(maker, need) {
                later.rest
            } else {
                seq![after] + later.rest
            },
            trades: if trades_with(maker, need) {
                seq![after] + later.trades
            } else {
                later.trades
            },
            need: later.need,
        }
    }
}

/// Sweeps a side level by level and stops once nothing is needed. A level
/// whose queue is found or left empty is dropped.
pub open spec fn side_sweep(levels: Seq<LevelView>, need: nat) -> SideSweep
    decreases levels.len(),
{
    if need == 0 || levels.len() == 0 {
        SideSweep { levels, trades: Seq::empty(), need }
    } else {
        let level = levels.first();
        let here = queue_sweep(level.orders, need);
        let later = side_sweep(levels.drop_first(), here.need);
        SideSweep {
            levels: if here.rest.len() == 0 {
                later.levels
            } else {
                seq![LevelView { price: level.price, orders: here.rest }] + later.levels
            },
            trades: here.trades + later.trades,
            need: later.need,
        }
    }
}

/// With nothing needed a sweep leaves the queue as it is.
pub proof fn lemma_queue_sweep_stopped(queue: Seq<OrderView>)
    ensures
        queue_sweep(queue, 0) == (QueueSweep { rest: queue, trades: Seq::empty(), need: 0 }),
    decreases queue.len(),
{
    if queue.len() > 0 {
        lemma_queue_sweep_stopped(queue.drop_first());
        let maker = queue.first();
        assert(maker.filled_by(0) == maker);
        assert(seq![maker] + queue.drop_first() == queue);
    } else {
        assert(queue == Seq::<OrderView>::empty());
    }
}

/// The need that is still open after a sweep of `orders`, which are not
/// changed.
pub fn probe_queue(orders: &VecDeque<Order>, need: U256) -> (left: U256)
    ensures
        left@ == queue_sweep(queue_view(orders@), need@).need,
{
    let ghost queue = queue_view(orders@);
    let mut left = need;
    let mut j: usize = 0;
    assert(queue.skip(0) == queue);
    while j < orders.len() && !left.is_zero()
        invariant
            0 <= j <= orders.len(),
            queue == queue_view(orders@),
            queue_sweep(queue, need@).need == queue_sweep(queue.skip(j as int), left@).need,
        decreases orders.len() - j,
    {
        let maker = &orders[j];
        let avail = maker.remaining();
        proof {
            assert(queue.skip(j as int).first() == maker@);
            assert(queue.skip(j as int).drop_first() == queue.skip(j + 1));
        }
        if avail.gt(&left) {
            if !maker.only_full_fill() {
                left = U256::zero();
            }
        } else {
            left = match left.checked_sub(avail) {
                Some(rest) => rest,
                None => U256::zero(),
            };
        }
        j += 1;
    }
    proof {
        if j < orders.len() {
            lemma_queue_sweep_stopped(queue.skip(j as int));
        } else {
            assert(queue.skip(j as int).len() == 0);
        }
    }
    left
}

/// The need that is still open after a sweep of `levels`, which are not
/// changed.
pub fn probe_levels(levels: &Vec<PriceLevel>, need: U256) -> (left: U256)
    ensures
        left@ == side_sweep(levels_view(levels@), need@).need,
{
    let ghost side = levels_view(levels@);
    let mut left = need;
    let mut i: usize = 0;
    assert(side.skip(0) == side);
    while i < levels.len() && !left.is_zero()
        invariant
            0 <= i <= levels.len(),
            side == levels_view(levels@),
            side_sweep(side, need@).need == side_sweep(side.skip(i as int), left@).need,
        decreases levels.len() - i,
    {
        proof {
            assert(side.skip(i as int).first() == levels[i as int]@);
            assert(side.skip(i as int).drop_first() == side.skip(i + 1));
        }
        left = probe_queue(&levels[i].orders, left);
        i += 1;
    }
    proof {
        if i >= levels.len() {
            assert(side.skip(i as int).len() == 0);
        }
    }
    left
}

/// Sweeps `orders` for `need`: fills makers oldest first, takes the consumed
/// ones out of the queue, and appends each trade to `trades`. Returns the
/// need that is still open.
pub fn sweep_queue(orders: &mut VecDeque<Order>, need: U256, trades: &mut Vec<Order>) -> (left:
    U256)
    ensures
        ({
            let s = queue_sweep(queue_view(old(orders)@), need@);
            &&& queue_view(final(orders)@) == s.rest
            &&& queue_view(final(trades)@) == queue_view(old(trades)@) + s.trades
            &&& left@ == s.need
        }),
{
    let ghost earlier = queue_view(trades@);
    let ghost whole = queue_sweep(queue_view(orders@), need@);
    let mut left = need;
    let mut j: usize = 0;
    proof {
        let now = queue_view(orders@);
        assert(now.skip(0) == now);
        assert(now.take(0) + whole.rest == whole.rest);
    }
    while j < orders.len() && !left.is_zero()
        invariant
            0 <= j <= orders.len(),
            ({
                let now = queue_view(orders@);
                let s = queue_sweep(now.skip(j as int), left@);
                &&& whole.rest == now.take(j as int) + s.rest
                &&& earlier + whole.trades == queue_view(trades@) + s.trades
                &&& whole.need == s.need
            }),
        decreases orders.len() - j, left@,
    {
        let ghost now = queue_view(orders@);
        let ghost done = queue_view(trades@);
        let ghost maker = now[j as int];
        let ghost later = queue_sweep(now.skip(j + 1), (left@ - fill_of(maker, left@)) as nat);
        proof {
            assert(now.skip(j as int).first() == maker);
            assert(now.skip(j as int).drop_first() == now.skip(j + 1));
            assert(now.take(j + 1) == now.take(j as int).push(maker));
        }
        let avail = orders[j].remaining();
        if avail.gt(&left) {
            if orders[j].only_full_fill() {
                proof {
                    assert(maker.filled_by(0) == maker);
                    assert(now.take(j as int) + (seq![maker] + later.rest) == now.take(j + 1)
                        + later.rest);
                }
                j += 1;
            } else {
                match orders.remove(j) {
                    Some(mut touched) => {
                        touched.fill(left);
                        trades.push(touched.clone());
                        orders.insert(j, touched);
                    },
                    None => {},
                }
                proof {
                    let after = maker.filled_by(left@);
                    let next = queue_view(orders@);
                    lemma_queue_sweep_stopped(now.skip(j + 1));
                    assert(next == now.update(j as int, after));
                    assert(next.skip(j + 1) == now.skip(j + 1));
                    assert(next.take(j + 1) == now.take(j as int).push(after));
                    assert(queue_view(trades@) == done.push(after));
                    assert(now.take(j as int) + (seq![after] + later.rest) == next.take(j + 1)
                        + later.rest);
                    assert(done + (seq![after] + later.trades) == done.push(after) + later.trades);
                }
                left = U256::zero();
                j += 1;
            }
        } else {
            match orders.remove(j) {
                Some(mut gone) => {
                    gone.fill(avail);
                    trades.push(gone);
                },
                None => {},
            }
            proof {
                let after = maker.filled_by(avail@);
                let next = queue_view(orders@);
                assert(next == now.remove(j as int));
                assert(next.skip(j as int) == now.skip(j + 1));
                assert(next.take(j as int) == now.take(j as int));
                assert(queue_view(trades@) == done.push(after));
                assert(done + (seq![after] + later.trades) == done.push(after) + later.trades);
            }
            left = match left.checked_sub(avail) {
                Some(rest) => rest,
                None => U256::zero(),
            };
        }
    }
    proof {
        let now = queue_view(orders@);
        if j < orders.len() {
            lemma_queue_sweep_stopped(now.skip(j as int));
        } else {
            assert(now.skip(j as int).len() == 0);
        }
        assert(now.take(j as int) + now.skip(j as int) == now);
        assert(queue_view(trades@) + Seq::<OrderView>::empty() == queue_view(trades@));
    }
    left
}

/// Sweeps `levels` for `need`, best price first, and drops each level that
/// is found or left without orders. Returns the trades and the need that is
/// still open.
pub fn sweep_levels(levels: &mut Vec<PriceLevel>, need: U256) -> (r: (Vec<Order>, U256))
    ensures
        ({
            let s = side_sweep(levels_view(old(levels)@), need@);
            &&& levels_view(final(levels)@) == s.levels
            &&& queue_view(r.0@) == s.trades
            &&& r.1@ == s.need
        }),
{
    let ghost whole = side_sweep(levels_view(levels@), need@);
    let mut trades: Vec<Order> = Vec::new();
    let mut left = need;
    let mut i: usize = 0;
    proof {
        let now = levels_view(levels@);
        assert(now.skip(0) == now);
        assert(now.take(0) + whole.levels == whole.levels);
        assert(queue_view(trades@) + whole.trades == whole.trades);
    }
    while i < levels.len() && !left.is_zero()
        invariant
            0 <= i <= levels.len(),
            ({
                let now = levels_view(levels@);
                let s = side_sweep(now.skip(i as int), left@);
                &&& whole.levels == now.take(i as int) + s.levels
                &&& whole.trades == queue_view(trades@) + s.trades
                &&& whole.need == s.need
            }),
        decreases levels.len() - i,
    {
        let ghost now = levels_view(levels@);
        let ghost done = queue_view(trades@);
        let ghost level = now[i as int];
        let ghost here = queue_sweep(level.orders, left@);
        let ghost later = side_sweep(now.skip(i + 1), here.need);
        proof {
            assert(now.skip(i as int).first() == level);
            assert(now.skip(i as int).drop_first() == now.skip(i + 1));
        }
        left = sweep_queue(&mut levels[i].orders, left, &mut trades);
        proof {
            assert(queue_view(trades@) + later.trades == done + (here.trades + later.trades));
        }
        if levels[i].orders.len() == 0 {
            let _ = levels.remove(i);
            proof {
                let next = levels_view(levels@);
                assert(next.skip(i as int) == now.skip(i + 1));
                assert(next.take(i as int) == now.take(i as int));
            }
        } else {
            proof {
                let kept = LevelView { price: level.price, orders: here.rest };
                let next = levels_view(levels@);
                assert(next == now.update(i as int, kept));
                assert(next.skip(i + 1) == now.skip(i + 1));
                assert(next.take(i + 1) == now.take(i as int).push(kept));
                assert(now.take(i as int) + (seq![kept] + later.levels) == next.take(i + 1)
                    + later.levels);
            }
            i += 1;
        }
    }
    proof {
        let now = levels_view(levels@);
        if i >= levels.len() {
            assert(now.skip(i as int).len() == 0);
        }
        assert(now.take(i as int) + now.skip(i as int) == now);
        assert(queue_view(trades@) + Seq::<OrderView>::empty() == queue_view(trades@));
    }
    (trades, left)
}

} // verus!
