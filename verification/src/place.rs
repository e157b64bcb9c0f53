//! What holds of every order that a book keeps, and why admission and
//! matching preserve it.

use crate::level::{
    better, lemma_position_splits, no_empty_level, position, sorted, with_order, LevelView,
};
use crate::matching::{lemma_side_sweep_need, match_from};
use crate::order::{OrderType, OrderView, Side};
use crate::sweep::{fill_of, queue_sweep, side_sweep};
use vstd::prelude::*;

verus! {

/// Which kind of orders a side of the book keeps: limit orders that rest at
/// their limit price, or stop orders that wait at their trigger price.
#[derive(Clone, Copy, Debug, PartialEq, Eq, Structural)]
pub enum Shelf {
    Resting,
    Waiting,
}

/// Whether `order` is in its place at `price` on the given side and shelf.
pub open spec fn belongs(order: OrderView, side: Side, shelf: Shelf, price: nat) -> bool {
    &&& order.side == side
    &&& order.within_quantity()
    &&& match shelf {
        Shelf::Resting => order.kind() == Some(OrderType::Limit) && order.limit_price == price,
        Shelf::Waiting => (order.kind() == Some(OrderType::Stop) || order.kind() == Some(
            OrderType::StopLimit,
        )) && order.stop_price == price,
    }
}

/// Every order of the queue is in its place at `price`.
pub open spec fn queue_belongs(queue: Seq<OrderView>, side: Side, shelf: Shelf, price: nat) -> bool {
    forall|j: int| 0 <= j < queue.len() ==> belongs(#[trigger] queue[j], side, shelf, price)
}

/// A side of the book: levels strictly ordered best price first, none of
/// them empty, each holding orders of its own side, kind and price.
pub open spec fn side_wf(levels: Seq<LevelView>, side: Side, shelf: Shelf) -> bool {
    &&& sorted(levels, side)
    &&& no_empty_level(levels)
    &&& forall|i: int|
        0 <= i < levels.len() ==> queue_belongs(
            (#[trigger] levels[i]).orders,
            side,
            shelf,
            levels[i].price,
        )
}

/// A queue of market orders of one side, each within its quantity.
pub open spec fn market_wf(queue: Seq<OrderView>, side: Side) -> bool {
    forall|j: int|
        0 <= j < queue.len() ==> {
            &&& (#[trigger] queue[j]).side == side
            &&& queue[j].kind() == Some(OrderType::Market)
            &&& queue[j].within_quantity()
        }
}

/// Admission keeps a side in order.
pub proof fn lemma_with_order_keeps_side(
    levels: Seq<LevelView>,
    side: Side,
    shelf: Shelf,
    price: nat,
    order: OrderView,
)
    requires
        side_wf(levels, side, shelf),
        belongs(order, side, shelf, price),
    ensures
        side_wf(with_order(levels, side, price, order), side, shelf),
{
    lemma_position_splits(levels, side, price);
    let k = position(levels, side, price) as int;
    let after = with_order(levels, side, price, order);
    if k < levels.len() && levels[k].price == price {
        assert forall|i: int| 0 <= i < after.len() implies queue_belongs(
            (#[trigger] after[i]).orders,
            side,
            shelf,
            after[i].price,
        ) by {
            if i != k {
                assert(after[i] == levels[i]);
            }
        }
        assert forall|i: int, j: int| 0 <= i < j < after.len() implies better(
            side,
            #[trigger] after[i].price,
            #[trigger] after[j].price,
        ) by {
            assert(after[i].price == levels[i].price);
            assert(after[j].price == levels[j].price);
        }
    } else {
        assert forall|i: int| 0 <= i < after.len() implies queue_belongs(
            (#[trigger] after[i]).orders,
            side,
            shelf,
            after[i].price,
        ) && after[i].orders.len() > 0 by {
            if i < k {
                assert(after[i] == levels[i]);
            } else if i > k {
                assert(after[i] == levels[i - 1]);
            }
        }
        assert forall|i: int, j: int| 0 <= i < j < after.len() implies better(
            side,
            #[trigger] after[i].price,
            #[trigger] after[j].price,
        ) by {
            let a = if i < k { levels[i] } else if i == k { after[k] } else { levels[i - 1] };
            let b = if j < k { levels[j] } else if j == k { after[k] } else { levels[j - 1] };
            assert(after[i] == a);
            assert(after[j] == b);
            if k < levels.len() {
                assert(better(side, price, levels[k].price));
                if j > k + 1 {
                    assert(better(side, levels[k].price, levels[j - 1].price));
                }
            }
        }
    }
}

/// What follows the first level of a side in order is a side in order.
pub proof fn lemma_side_wf_tail(levels: Seq<LevelView>, side: Side, shelf: Shelf)
    requires
        side_wf(levels, side, shelf),
        levels.len() > 0,
    ensures
        side_wf(levels.drop_first(), side, shelf),
{
    let tail = levels.drop_first();
    assert forall|i: int| 0 <= i < tail.len() implies queue_belongs(
        (#[trigger] tail[i]).orders,
        side,
        shelf,
        tail[i].price,
    ) && tail[i].orders.len() > 0 by {
        assert(tail[i] == levels[i + 1]);
    }
    assert forall|i: int, j: int| 0 <= i < j < tail.len() implies better(
        side,
        #[trigger] tail[i].price,
        #[trigger] tail[j].price,
    ) by {
        assert(tail[i] == levels[i + 1]);
        assert(tail[j] == levels[j + 1]);
    }
}

/// A fill within what a maker has left keeps the maker in its place.
pub proof fn lemma_fill_keeps_place(order: OrderView, side: Side, shelf: Shelf, price: nat, amount: nat)
    requires
        belongs(order, side, shelf, price),
        amount <= order.remaining(),
    ensures
        belongs(order.filled_by(amount), side, shelf, price),
{
}

/// A sweep keeps every maker that stays, and every maker that it reports,
/// in its place.
pub proof fn lemma_queue_sweep_keeps_place(
    queue: Seq<OrderView>,
    need: nat,
    side: Side,
    shelf: Shelf,
    price: nat,
)
    requires
        queue_belongs(queue, side, shelf, price),
    ensures
        queue_belongs(queue_sweep(queue, need).rest, side, shelf, price),
        queue_belongs(queue_sweep(queue, need).trades, side, shelf, price),
    decreases queue.len(),
{
    if queue.len() > 0 {
        let maker = queue.first();
        let fill = fill_of(maker, need);
        let later = queue_sweep(queue.drop_first(), (need - fill) as nat);
        assert(queue_belongs(queue.drop_first(), side, shelf, price)) by {
            assert forall|j: int| 0 <= j < queue.drop_first().len() implies belongs(
                #[trigger] queue.drop_first()[j],
                side,
                shelf,
                price,
            ) by {
                assert(queue.drop_first()[j] == queue[j + 1]);
            }
        }
        lemma_queue_sweep_keeps_place(queue.drop_first(), (need - fill) as nat, side, shelf, price);
        lemma_fill_keeps_place(maker, side, shelf, price, fill);
    }
}

/// A sweep keeps a side in order, and reports only makers of that side.
pub proof fn lemma_side_sweep_keeps_side(levels: Seq<LevelView>, need: nat, side: Side)
    requires
        side_wf(levels, side, Shelf::Resting),
    ensures
        side_wf(side_sweep(levels, need).levels, side, Shelf::Resting),
        forall|k: int|
            0 <= k < side_sweep(levels, need).trades.len() ==> {
                let trade = #[trigger] side_sweep(levels, need).trades[k];
                &&& trade.side == side
                &&& trade.within_quantity()
                &&& trade.kind() == Some(OrderType::Limit)
            },
        forall|k: int|
            0 <= k < side_sweep(levels, need).levels.len() && levels.len() > 0 ==> {
                let p = (#[trigger] side_sweep(levels, need).levels[k]).price;
                p == levels.first().price || better(side, levels.first().price, p)
            },
    decreases levels.len(),
{
    if need > 0 && levels.len() > 0 {
        let level = levels.first();
        let rest = levels.drop_first();
        let here = queue_sweep(level.orders, need);
        let later = side_sweep(rest, here.need);
        let out = side_sweep(levels, need);
        lemma_side_wf_tail(levels, side, Shelf::Resting);
        lemma_queue_sweep_keeps_place(level.orders, need, side, Shelf::Resting, level.price);
        lemma_side_sweep_keeps_side(rest, here.need, side);
        let kept = LevelView { price: level.price, orders: here.rest };
        assert forall|k: int| 0 <= k < later.levels.len() implies better(
            side,
            level.price,
            (#[trigger] later.levels[k]).price,
        ) by {
            assert(rest.first() == levels[1]);
            assert(better(side, levels[0].price, levels[1].price));
        }
        assert forall|k: int| 0 <= k < out.trades.len() implies {
            let trade = #[trigger] out.trades[k];
            &&& trade.side == side
            &&& trade.within_quantity()
            &&& trade.kind() == Some(OrderType::Limit)
        } by {
            if k < here.trades.len() {
                assert(out.trades[k] == here.trades[k]);
            } else {
                assert(out.trades[k] == later.trades[k - here.trades.len()]);
            }
        }
        if here.rest.len() > 0 {
            assert forall|i: int| 0 <= i < out.levels.len() implies queue_belongs(
                (#[trigger] out.levels[i]).orders,
                side,
                Shelf::Resting,
                out.levels[i].price,
            ) && out.levels[i].orders.len() > 0 by {
                if i > 0 {
                    assert(out.levels[i] == later.levels[i - 1]);
                } else {
                    assert(out.levels[0] == kept);
                }
            }
            assert forall|i: int, j: int| 0 <= i < j < out.levels.len() implies better(
                side,
                #[trigger] out.levels[i].price,
                #[trigger] out.levels[j].price,
            ) by {
                assert(out.levels[j] == later.levels[j - 1]);
                if i > 0 {
                    assert(out.levels[i] == later.levels[i - 1]);
                } else {
                    assert(out.levels[0] == kept);
                }
            }
            assert forall|k: int| 0 <= k < out.levels.len() implies {
                let p = (#[trigger] out.levels[k]).price;
                p == levels.first().price || better(side, levels.first().price, p)
            } by {
                if k > 0 {
                    assert(out.levels[k] == later.levels[k - 1]);
                } else {
                    assert(out.levels[0] == kept);
                }
            }
        }
    }
}

/// A matching step keeps the takers' queue and the makers' side in order.
pub proof fn lemma_match_keeps_order(
    takers: Seq<OrderView>,
    makers: Seq<LevelView>,
    side: Side,
    cursor: int,
)
    requires
        market_wf(takers, side),
        side_wf(makers, side.opposite(), Shelf::Resting),
    ensures
        market_wf(match_from(takers, makers, cursor).takers, side),
        side_wf(match_from(takers, makers, cursor).makers, side.opposite(), Shelf::Resting),
    decreases takers.len() - cursor,
{
    if 0 <= cursor < takers.len() {
        let taker = takers[cursor];
        let need = taker.remaining();
        let s = side_sweep(makers, need);
        lemma_side_sweep_need(makers, need);
        lemma_side_sweep_keeps_side(makers, need, side.opposite());
        if taker.only_full_fill && s.need > 0 {
            lemma_match_keeps_order(takers, makers, side, cursor + 1);
        } else if s.trades.len() > 0 {
            let after = taker.filled_by((need - s.need) as nat);
            let out = match_from(takers, makers, cursor).takers;
            assert forall|j: int| 0 <= j < out.len() implies {
                &&& (#[trigger] out[j]).side == side
                &&& out[j].kind() == Some(OrderType::Market)
                &&& out[j].within_quantity()
            } by {
                if s.need == 0 {
                    if j < cursor {
                        assert(out[j] == takers[j]);
                    } else {
                        assert(out[j] == takers[j + 1]);
                    }
                } else {
                    if j != cursor {
                        assert(out[j] == takers[j]);
                    }
                }
            }
        }
    }
}

} // verus!
