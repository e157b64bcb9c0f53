//! Orders keep their order of arrival: admission puts an order behind all
//! that rest at its price, and a sweep takes makers out of a queue without
//! moving those that stay.

use crate::level::{
    better, lemma_position_splits, position, queue_at, sorted, with_order, LevelView,
};
use crate::order::{OrderView, Side};
use crate::place::{lemma_side_sweep_keeps_side, lemma_side_wf_tail, side_wf, Shelf};
use crate::sweep::{
    consumes, fill_of, lemma_queue_sweep_stopped, queue_sweep, side_sweep, trades_with,
};
use vstd::prelude::*;

verus! {

/// The need that is still open when a sweep of `queue` for `need` reaches
/// position `i`.
pub open spec fn need_at(queue: Seq<OrderView>, need: nat, i: int) -> nat
    decreases i,
{
    if i <= 0 || queue.len() == 0 {
        need
    } else {
        need_at(queue.drop_first(), (need - fill_of(queue.first(), need)) as nat, i - 1)
    }
}

/// What the sweep makes of the maker at position `i`: the maker after the
/// fill that it gives.
pub open spec fn maker_after(queue: Seq<OrderView>, need: nat, i: int) -> OrderView {
    queue[i].filled_by(fill_of(queue[i], need_at(queue, need, i)))
}

/// The positions of the makers that stay in the queue, in ascending order.
pub open spec fn staying(queue: Seq<OrderView>, need: nat) -> Seq<int>
    decreases queue.len(),
{
    if queue.len() == 0 {
        Seq::empty()
    } else {
        let later = staying(
            queue.drop_first(),
            (need - fill_of(queue.first(), need)) as nat,
        ).map_values(|k: int| k + 1);
        if consumes(queue.first(), need) {
            later
        } else {
            seq![0int] + later
        }
    }
}

/// The positions of the makers that trade, in ascending order.
pub open spec fn trading(queue: Seq<OrderView>, need: nat) -> Seq<int>
    decreases queue.len(),
{
    if queue.len() == 0 {
        Seq::empty()
    } else {
        let later = trading(
            queue.drop_first(),
            (need - fill_of(queue.first(), need)) as nat,
        ).map_values(|k: int| k + 1);
        if trades_with(queue.first(), need) {
            seq![0int] + later
        } else {
            later
        }
    }
}

/// The makers that a sweep leaves in a queue stand in their order of
/// arrival: they are the makers at the positions `staying`, which ascend,
/// each as its fill has left it, and none of them was consumed.
pub proof fn lemma_rest_keeps_arrival_order(queue: Seq<OrderView>, need: nat)
    ensures
        staying(queue, need).len() == queue_sweep(queue, need).rest.len(),
        forall|k: int|
            0 <= k < staying(queue, need).len() ==> 0 <= #[trigger] staying(queue, need)[k]
                < queue.len(),
        forall|k: int, l: int|
            0 <= k < l < staying(queue, need).len() ==> #[trigger] staying(queue, need)[k]
                < #[trigger] staying(queue, need)[l],
        forall|k: int|
            0 <= k < staying(queue, need).len() ==> {
                let i = staying(queue, need)[k];
                &&& #[trigger] queue_sweep(queue, need).rest[k] == maker_after(queue, need, i)
                &&& !consumes(queue[i], need_at(queue, need, i))
            },
    decreases queue.len(),
{
    if queue.len() > 0 {
        let maker = queue.first();
        let tail = queue.drop_first();
        let left = (need - fill_of(maker, need)) as nat;
        lemma_rest_keeps_arrival_order(tail, left);
        let at = staying(queue, need);
        let rest = queue_sweep(queue, need).rest;
        let shift: int = if consumes(maker, need) { 0 } else { 1 };
        assert forall|k: int| 0 <= k < at.len() implies {
            let i = #[trigger] at[k];
            &&& 0 <= i < queue.len()
            &&& rest[k] == maker_after(queue, need, i)
            &&& !consumes(queue[i], need_at(queue, need, i))
            &&& (k >= shift ==> i == staying(tail, left)[k - shift] + 1)
            &&& (k < shift ==> i == 0)
        } by {
            if k >= shift {
                let i = staying(tail, left)[k - shift];
                assert(at[k] == i + 1);
                assert(tail[i] == queue[i + 1]);
                assert(rest[k] == queue_sweep(tail, left).rest[k - shift]);
            }
        }
        assert forall|k: int, l: int| 0 <= k < l < at.len() implies #[trigger] at[k] < #[trigger] at[l] by {
            assert(at[l] == staying(tail, left)[l - shift] + 1);
            if k >= shift {
                assert(at[k] == staying(tail, left)[k - shift] + 1);
            }
        }
    }
}

/// The trades of a sweep come in the makers' order of arrival: they are the
/// makers at the positions `trading`, which ascend, each as its fill has left
/// it.
pub proof fn lemma_trades_keep_arrival_order(queue: Seq<OrderView>, need: nat)
    ensures
        trading(queue, need).len() == queue_sweep(queue, need).trades.len(),
        forall|k: int|
            0 <= k < trading(queue, need).len() ==> 0 <= #[trigger] trading(queue, need)[k]
                < queue.len(),
        forall|k: int, l: int|
            0 <= k < l < trading(queue, need).len() ==> #[trigger] trading(queue, need)[k]
                < #[trigger] trading(queue, need)[l],
        forall|k: int|
            0 <= k < trading(queue, need).len() ==> {
                let i = trading(queue, need)[k];
                &&& #[trigger] queue_sweep(queue, need).trades[k] == maker_after(queue, need, i)
                &&& trades_with(queue[i], need_at(queue, need, i))
            },
    decreases queue.len(),
{
    if queue.len() > 0 {
        let maker = queue.first();
        let tail = queue.drop_first();
        let left = (need - fill_of(maker, need)) as nat;
        lemma_trades_keep_arrival_order(tail, left);
        let at = trading(queue, need);
        let trades = queue_sweep(queue, need).trades;
        let shift: int = if trades_with(maker, need) { 1 } else { 0 };
        assert forall|k: int| 0 <= k < at.len() implies {
            let i = #[trigger] at[k];
            &&& 0 <= i < queue.len()
            &&& trades[k] == maker_after(queue, need, i)
            &&& trades_with(queue[i], need_at(queue, need, i))
            &&& (k >= shift ==> i == trading(tail, left)[k - shift] + 1)
            &&& (k < shift ==> i == 0)
        } by {
            if k >= shift {
                let i = trading(tail, left)[k - shift];
                assert(at[k] == i + 1);
                assert(tail[i] == queue[i + 1]);
                assert(trades[k] == queue_sweep(tail, left).trades[k - shift]);
            }
        }
        assert forall|k: int, l: int| 0 <= k < l < at.len() implies #[trigger] at[k] < #[trigger] at[l] by {
            assert(at[l] == trading(tail, left)[l - shift] + 1);
            if k >= shift {
                assert(at[k] == trading(tail, left)[k - shift] + 1);
            }
        }
    }
}

/// Every maker that trades stands at one of the positions `trading`.
pub proof fn lemma_trading_is_complete(queue: Seq<OrderView>, need: nat, j: int)
    requires
        0 <= j < queue.len(),
        trades_with(queue[j], need_at(queue, need, j)),
    ensures
        trading(queue, need).contains(j),
    decreases queue.len(),
{
    let tail = queue.drop_first();
    let left = (need - fill_of(queue.first(), need)) as nat;
    let later = trading(tail, left).map_values(|k: int| k + 1);
    let at = trading(queue, need);
    let shift: int = if trades_with(queue.first(), need) { 1 } else { 0 };
    if j == 0 {
        assert(at[0] == 0);
    } else {
        assert(tail[j - 1] == queue[j]);
        lemma_trading_is_complete(tail, left, j - 1);
        let k = choose|k: int| 0 <= k < trading(tail, left).len() && trading(tail, left)[k] == j - 1;
        assert(later[k] == j);
        assert(at[k + shift] == j);
    }
}

/// Every maker that is not consumed stands at one of the positions
/// `staying`.
pub proof fn lemma_staying_is_complete(queue: Seq<OrderView>, need: nat, j: int)
    requires
        0 <= j < queue.len(),
        !consumes(queue[j], need_at(queue, need, j)),
    ensures
        staying(queue, need).contains(j),
    decreases queue.len(),
{
    let tail = queue.drop_first();
    let left = (need - fill_of(queue.first(), need)) as nat;
    let later = staying(tail, left).map_values(|k: int| k + 1);
    let at = staying(queue, need);
    let shift: int = if consumes(queue.first(), need) { 0 } else { 1 };
    if j == 0 {
        assert(at[0] == 0);
    } else {
        assert(tail[j - 1] == queue[j]);
        lemma_staying_is_complete(tail, left, j - 1);
        let k = choose|k: int| 0 <= k < staying(tail, left).len() && staying(tail, left)[k] == j - 1;
        assert(later[k] == j);
        assert(at[k + shift] == j);
    }
}

/// On a side in order, the queue at a price is the queue of the one level
/// that has this price.
pub proof fn lemma_queue_at_level(levels: Seq<LevelView>, side: Side, i: int)
    requires
        sorted(levels, side),
        0 <= i < levels.len(),
    ensures
        queue_at(levels, levels[i].price) == levels[i].orders,
    decreases levels.len(),
{
    if i > 0 {
        let rest = levels.drop_first();
        assert(better(side, levels[0].price, levels[i].price));
        assert(rest[i - 1] == levels[i]);
        assert forall|a: int, b: int| 0 <= a < b < rest.len() implies better(
            side,
            #[trigger] rest[a].price,
            #[trigger] rest[b].price,
        ) by {
            assert(rest[a] == levels[a + 1]);
            assert(rest[b] == levels[b + 1]);
        }
        lemma_queue_at_level(rest, side, i - 1);
    }
}

/// A price that no level has has an empty queue.
pub proof fn lemma_queue_at_absent(levels: Seq<LevelView>, price: nat)
    requires
        forall|i: int| 0 <= i < levels.len() ==> (#[trigger] levels[i]).price != price,
    ensures
        queue_at(levels, price) == Seq::<OrderView>::empty(),
    decreases levels.len(),
{
    if levels.len() > 0 {
        let rest = levels.drop_first();
        assert(levels[0].price != price);
        assert forall|i: int| 0 <= i < rest.len() implies (#[trigger] rest[i]).price != price by {
            assert(rest[i] == levels[i + 1]);
        }
        lemma_queue_at_absent(rest, price);
    }
}

/// Admission puts the order at the back of the queue at its price and
/// leaves the queue at every other price as it was.
pub proof fn lemma_admission_joins_the_back(
    levels: Seq<LevelView>,
    side: Side,
    price: nat,
    order: OrderView,
    other: nat,
)
    requires
        sorted(levels, side),
    ensures
        sorted(with_order(levels, side, price, order), side),
        queue_at(with_order(levels, side, price, order), price) == queue_at(levels, price).push(
            order,
        ),
        other != price ==> queue_at(with_order(levels, side, price, order), other) == queue_at(
            levels,
            other,
        ),
{
    lemma_position_splits(levels, side, price);
    let k = position(levels, side, price) as int;
    let after = with_order(levels, side, price, order);
    let found = k < levels.len() && levels[k].price == price;
    assert(sorted(after, side)) by {
        assert forall|i: int, j: int| 0 <= i < j < after.len() implies better(
            side,
            #[trigger] after[i].price,
            #[trigger] after[j].price,
        ) by {
            if found {
                assert(after[i].price == levels[i].price);
                assert(after[j].price == levels[j].price);
            } else {
                let a = if i < k { levels[i] } else if i == k { after[k] } else { levels[i - 1] };
                let b = if j < k { levels[j] } else if j == k { after[k] } else { levels[j - 1] };
                assert(after[i] == a);
                assert(after[j] == b);
                if k < levels.len() {
                    assert(better(side, price, levels[k].price));
                    if j > k + 1 {
                        assert(better(side, levels[k].price, levels[j - 1].price));
                    }
                }
            }
        }
    }
    // The queue at the order's own price.
    lemma_queue_at_level(after, side, k);
    if found {
        lemma_queue_at_level(levels, side, k);
    } else {
        assert forall|i: int| 0 <= i < levels.len() implies (#[trigger] levels[i]).price != price by {
            if i > k {
                assert(better(side, levels[k].price, levels[i].price));
            }
        }
        lemma_queue_at_absent(levels, price);
        assert(Seq::<OrderView>::empty().push(order) == seq![order]);
    }
    // The queue at any other price.
    if other != price {
        if exists|i: int| 0 <= i < levels.len() && (#[trigger] levels[i]).price == other {
            let i = choose|i: int| 0 <= i < levels.len() && (#[trigger] levels[i]).price == other;
            let j = if found || i < k { i } else { i + 1 };
            assert(after[j].price == other && after[j].orders == levels[i].orders);
            lemma_queue_at_level(levels, side, i);
            lemma_queue_at_level(after, side, j);
        } else {
            assert forall|j: int| 0 <= j < after.len() implies (#[trigger] after[j]).price != other by {
                if found {
                    assert(after[j].price == levels[j].price);
                } else if j < k {
                    assert(after[j] == levels[j]);
                } else if j > k {
                    assert(after[j] == levels[j - 1]);
                }
            }
            lemma_queue_at_absent(levels, other);
            lemma_queue_at_absent(after, other);
        }
    }
}

/// The need that is still open when a sweep of `levels` for `need` reaches
/// the level at position `i`.
pub open spec fn need_at_level(levels: Seq<LevelView>, need: nat, i: int) -> nat
    decreases i,
{
    if i <= 0 || levels.len() == 0 {
        need
    } else {
        need_at_level(
            levels.drop_first(),
            queue_sweep(levels.first().orders, need).need,
            i - 1,
        )
    }
}

/// With nothing needed, nothing is needed at any level.
pub proof fn lemma_need_at_level_stopped(levels: Seq<LevelView>, i: int)
    ensures
        need_at_level(levels, 0, i) == 0,
    decreases i,
{
    if i > 0 && levels.len() > 0 {
        lemma_queue_sweep_stopped(levels.first().orders);
        lemma_need_at_level_stopped(levels.drop_first(), i - 1);
    }
}

/// A sweep of a side sweeps each level on its own: the queue at the price
/// of a level is, after the sweep, what a sweep of that queue leaves for the
/// need that the better levels have left open. So within a level the makers
/// that stay keep their order of arrival.
pub proof fn lemma_each_level_is_swept(levels: Seq<LevelView>, side: Side, need: nat, i: int)
    requires
        side_wf(levels, side, Shelf::Resting),
        0 <= i < levels.len(),
    ensures
        queue_at(side_sweep(levels, need).levels, levels[i].price) == queue_sweep(
            levels[i].orders,
            need_at_level(levels, need, i),
        ).rest,
    decreases levels.len(),
{
    if need == 0 {
        lemma_need_at_level_stopped(levels, i);
        lemma_queue_sweep_stopped(levels[i].orders);
        lemma_queue_at_level(levels, side, i);
    } else {
        let level = levels.first();
        let tail = levels.drop_first();
        let here = queue_sweep(level.orders, need);
        let later = side_sweep(tail, here.need);
        let out = side_sweep(levels, need).levels;
        let kept = LevelView { price: level.price, orders: here.rest };
        lemma_side_wf_tail(levels, side, Shelf::Resting);
        lemma_side_sweep_keeps_side(tail, here.need, side);
        if here.rest.len() > 0 {
            assert(out.first() == kept);
            assert(out.drop_first() == later.levels);
        }
        if i == 0 {
            if here.rest.len() == 0 {
                assert forall|k: int| 0 <= k < later.levels.len() implies (#[trigger] later.levels[k]).price
                    != level.price by {
                    assert(tail.first() == levels[1]);
                    assert(better(side, levels[0].price, levels[1].price));
                }
                lemma_queue_at_absent(later.levels, level.price);
            }
        } else {
            assert(tail[i - 1] == levels[i]);
            assert(better(side, levels[0].price, levels[i].price));
            lemma_each_level_is_swept(tail, side, here.need, i - 1);
        }
    }
}

} // verus!
