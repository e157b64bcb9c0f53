//! Price-time priority: a sweep of a side is a sweep of the one queue in
//! which its makers stand by price and, at one price, by arrival. In that
//! queue a maker trades only after every maker before it has been consumed,
//! or passed by because it may only be filled in full and is larger than the
//! need.

use crate::arrival::{
    lemma_rest_keeps_arrival_order, lemma_staying_is_complete, lemma_trades_keep_arrival_order,
    lemma_trading_is_complete, maker_after, need_at, staying, trading,
};
use crate::level::{better, LevelView};
use crate::order::{OrderView, Side};
use crate::place::{lemma_side_wf_tail, queue_belongs, side_wf, Shelf};
use crate::sweep::{
    consumes, fill_of, lemma_queue_sweep_stopped, queue_sweep, side_sweep, trades_with, QueueSweep,
};
use vstd::prelude::*;

verus! {

/// The makers of a side in the order in which a sweep visits them: level by
/// level, and within a level oldest first.
pub open spec fn flatten(levels: Seq<LevelView>) -> Seq<OrderView>
    decreases levels.len(),
{
    if levels.len() == 0 {
        Seq::empty()
    } else {
        levels.first().orders + flatten(levels.drop_first())
    }
}

/// With nothing needed, nothing is needed at any position.
pub proof fn lemma_need_at_stopped(queue: Seq<OrderView>, i: int)
    ensures
        need_at(queue, 0, i) == 0,
    decreases i,
{
    if i > 0 && queue.len() > 0 {
        lemma_need_at_stopped(queue.drop_first(), i - 1);
    }
}

/// Where the maker at position `j` trades, every maker before it was
/// consumed, or is one that may only be filled in full and had more left than
/// was needed when the sweep reached it.
pub proof fn lemma_trade_needs_earlier_gone(queue: Seq<OrderView>, need: nat, i: int, j: int)
    requires
        0 <= i < j < queue.len(),
        trades_with(queue[j], need_at(queue, need, j)),
    ensures
        consumes(queue[i], need_at(queue, need, i)) || (queue[i].only_full_fill
            && queue[i].remaining() > need_at(queue, need, i)),
    decreases i,
{
    let tail = queue.drop_first();
    let left = (need - fill_of(queue.first(), need)) as nat;
    assert(tail[j - 1] == queue[j]);
    if i == 0 {
        if left == 0 {
            lemma_need_at_stopped(tail, j - 1);
        }
    } else {
        assert(tail[i - 1] == queue[i]);
        lemma_trade_needs_earlier_gone(tail, left, i - 1, j - 1);
    }
}

/// Time priority. Every maker that stands before the maker of a trade has
/// left the queue, consumed and itself reported as an earlier trade, unless it
/// may only be filled in full and had more left than was needed when the
/// sweep reached it; such a maker stays as it was.
pub proof fn lemma_earlier_makers_go_first(queue: Seq<OrderView>, need: nat, k: int, i: int)
    requires
        0 <= k < trading(queue, need).len(),
        0 <= i < trading(queue, need)[k],
    ensures
        trading(queue, need).len() == queue_sweep(queue, need).trades.len(),
        queue_sweep(queue, need).trades[k] == maker_after(queue, need, trading(queue, need)[k]),
        0 <= i < trading(queue, need)[k] < queue.len(),
        ({
            let passed = queue[i].only_full_fill && queue[i].remaining() > need_at(queue, need, i);
            let gone = consumes(queue[i], need_at(queue, need, i));
            &&& gone || passed
            &&& gone ==> !staying(queue, need).contains(i) && exists|l: int|
                0 <= l < k && #[trigger] trading(queue, need)[l] == i
            &&& passed ==> !trading(queue, need).contains(i) && exists|l: int|
                0 <= l < staying(queue, need).len() && #[trigger] staying(queue, need)[l] == i
                    && queue_sweep(queue, need).rest[l] == queue[i]
        }),
{
    lemma_trades_keep_arrival_order(queue, need);
    lemma_rest_keeps_arrival_order(queue, need);
    let at = trading(queue, need);
    let firm = staying(queue, need);
    let j = at[k];
    lemma_trade_needs_earlier_gone(queue, need, i, j);
    if consumes(queue[i], need_at(queue, need, i)) {
        lemma_trading_is_complete(queue, need, i);
        let l = choose|l: int| 0 <= l < at.len() && at[l] == i;
        if l >= k {
            if l > k {
                assert(at[k] < at[l]);
            }
        }
        if firm.contains(i) {
            let m = choose|m: int| 0 <= m < firm.len() && firm[m] == i;
            assert(queue_sweep(queue, need).rest[m] == maker_after(queue, need, firm[m]));
        }
    } else {
        lemma_staying_is_complete(queue, need, i);
        let l = choose|l: int| 0 <= l < firm.len() && firm[l] == i;
        assert(queue_sweep(queue, need).rest[l] == maker_after(queue, need, i));
        assert(queue[i].filled_by(0) == queue[i]);
        if at.contains(i) {
            let m = choose|m: int| 0 <= m < at.len() && at[m] == i;
            assert(queue_sweep(queue, need).trades[m] == maker_after(queue, need, at[m]));
        }
    }
}

/// A maker that may only be filled in full is never left with a part of a
/// fill: where it stays in the queue it is as it was, and where it trades it
/// is filled entirely.
pub proof fn lemma_all_or_nothing_makers(queue: Seq<OrderView>, need: nat)
    requires
        forall|i: int| 0 <= i < queue.len() ==> (#[trigger] queue[i]).within_quantity(),
    ensures
        staying(queue, need).len() == queue_sweep(queue, need).rest.len(),
        forall|k: int|
            0 <= k < queue_sweep(queue, need).rest.len() && (#[trigger] queue_sweep(
                queue,
                need,
            ).rest[k]).only_full_fill ==> queue_sweep(queue, need).rest[k] == queue[staying(
                queue,
                need,
            )[k]],
        forall|k: int|
            0 <= k < queue_sweep(queue, need).trades.len() && (#[trigger] queue_sweep(
                queue,
                need,
            ).trades[k]).only_full_fill ==> queue_sweep(queue, need).trades[k].filled_quantity
                == queue_sweep(queue, need).trades[k].quantity,
{
    lemma_rest_keeps_arrival_order(queue, need);
    lemma_trades_keep_arrival_order(queue, need);
    let s = queue_sweep(queue, need);
    assert forall|k: int| 0 <= k < s.rest.len() && (#[trigger] s.rest[k]).only_full_fill implies s.rest[k]
        == queue[staying(queue, need)[k]] by {
        let i = staying(queue, need)[k];
        assert(s.rest[k] == maker_after(queue, need, i));
        assert(queue[i].filled_by(0) == queue[i]);
    }
    assert forall|k: int| 0 <= k < s.trades.len() && (#[trigger] s.trades[k]).only_full_fill implies s.trades[k].filled_quantity
        == s.trades[k].quantity by {
        let i = trading(queue, need)[k];
        assert(s.trades[k] == maker_after(queue, need, i));
        assert(queue[i].within_quantity());
    }
}

/// A sweep of two queues on end is a sweep of the first, and then a sweep of
/// the second for the need that the first has left open.
pub proof fn lemma_queue_sweep_on_end(first: Seq<OrderView>, second: Seq<OrderView>, need: nat)
    ensures
        queue_sweep(first + second, need) == ({
            let a = queue_sweep(first, need);
            let b = queue_sweep(second, a.need);
            QueueSweep { rest: a.rest + b.rest, trades: a.trades + b.trades, need: b.need }
        }),
    decreases first.len(),
{
    let a = queue_sweep(first, need);
    let b = queue_sweep(second, a.need);
    if first.len() == 0 {
        assert(first + second == second);
        assert(a.rest + b.rest == b.rest);
        assert(a.trades + b.trades == b.trades);
    } else {
        let maker = first.first();
        let left = (need - fill_of(maker, need)) as nat;
        let after = maker.filled_by(fill_of(maker, need));
        assert((first + second).first() == maker);
        assert((first + second).drop_first() == first.drop_first() + second);
        lemma_queue_sweep_on_end(first.drop_first(), second, left);
        let x = queue_sweep(first.drop_first(), left);
        assert((seq![after] + x.rest) + b.rest == seq![after] + (x.rest + b.rest));
        assert((seq![after] + x.trades) + b.trades == seq![after] + (x.trades + b.trades));
    }
}

/// A sweep of a side is a sweep of its makers in one queue: the same
/// trades, the same need left open, and the same makers left, level by
/// level.
pub proof fn lemma_side_sweep_is_queue_sweep(levels: Seq<LevelView>, need: nat)
    ensures
        side_sweep(levels, need).trades == queue_sweep(flatten(levels), need).trades,
        side_sweep(levels, need).need == queue_sweep(flatten(levels), need).need,
        flatten(side_sweep(levels, need).levels) == queue_sweep(flatten(levels), need).rest,
    decreases levels.len(),
{
    if need == 0 {
        lemma_queue_sweep_stopped(flatten(levels));
    } else if levels.len() > 0 {
        let level = levels.first();
        let tail = levels.drop_first();
        let here = queue_sweep(level.orders, need);
        lemma_queue_sweep_on_end(level.orders, flatten(tail), need);
        lemma_side_sweep_is_queue_sweep(tail, here.need);
        let later = side_sweep(tail, here.need);
        if here.rest.len() == 0 {
            assert(here.rest + flatten(later.levels) == flatten(later.levels));
        } else {
            let kept = LevelView { price: level.price, orders: here.rest };
            let out = seq![kept] + later.levels;
            assert(out.first() == kept);
            assert(out.drop_first() == later.levels);
        }
    }
}

/// The one queue of a side follows price and then arrival: of two makers,
/// the one that stands first has the better price or the same price.
pub proof fn lemma_flatten_follows_price(levels: Seq<LevelView>, side: Side, i: int, j: int)
    requires
        side_wf(levels, side, Shelf::Resting),
        0 <= i < j < flatten(levels).len(),
    ensures
        flatten(levels)[i].limit_price == flatten(levels)[j].limit_price || better(
            side,
            flatten(levels)[i].limit_price,
            flatten(levels)[j].limit_price,
        ),
    decreases levels.len(),
{
    let level = levels.first();
    let tail = levels.drop_first();
    let n = level.orders.len() as int;
    lemma_side_wf_tail(levels, side, Shelf::Resting);
    assert(queue_belongs(levels[0].orders, side, Shelf::Resting, levels[0].price));
    if i >= n {
        lemma_flatten_follows_price(tail, side, i - n, j - n);
    } else if j >= n {
        lemma_flatten_prices(tail, side, j - n);
        let k = choose|k: int| 0 <= k < tail.len() && flatten(tail)[j - n].limit_price == (#[trigger] tail[k]).price;
        assert(tail[k] == levels[k + 1]);
        assert(better(side, levels[0].price, levels[k + 1].price));
    }
}

/// Every maker in the one queue of a side rests at the price of one of the
/// side's levels.
pub proof fn lemma_flatten_prices(levels: Seq<LevelView>, side: Side, i: int)
    requires
        side_wf(levels, side, Shelf::Resting),
        0 <= i < flatten(levels).len(),
    ensures
        exists|k: int| 0 <= k < levels.len() && flatten(levels)[i].limit_price == (#[trigger] levels[k]).price,
    decreases levels.len(),
{
    let level = levels.first();
    let tail = levels.drop_first();
    let n = level.orders.len() as int;
    assert(queue_belongs(levels[0].orders, side, Shelf::Resting, levels[0].price));
    if i >= n {
        lemma_side_wf_tail(levels, side, Shelf::Resting);
        lemma_flatten_prices(tail, side, i - n);
        let k = choose|k: int| 0 <= k < tail.len() && flatten(tail)[i - n].limit_price == (#[trigger] tail[k]).price;
        assert(tail[k] == levels[k + 1]);
        assert(flatten(levels)[i].limit_price == levels[k + 1].price);
    } else {
        assert(flatten(levels)[i].limit_price == levels[0].price);
    }
}

} // verus!
