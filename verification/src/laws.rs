//! What holds of every book and of every matching step on it.

use crate::book::BookView;
use crate::conservation::{
    all_within_quantity, lemma_match_conserves, lemma_nothing_reported_nothing_changed, resting,
    settles_at,
};
use crate::arrival::{
    lemma_rest_keeps_arrival_order, lemma_trades_keep_arrival_order, maker_after, need_at, staying,
    trading,
};
use crate::level::{better, LevelView};
use crate::matching::match_from;
use crate::order::{OrderView, Side};
use crate::place::{
    lemma_match_keeps_order, lemma_side_sweep_keeps_side, lemma_side_wf_tail, market_wf,
    queue_belongs, side_wf, Shelf,
};
use crate::priority::{
    flatten, lemma_all_or_nothing_makers, lemma_earlier_makers_go_first,
    lemma_flatten_follows_price, lemma_side_sweep_is_queue_sweep,
};
use crate::sweep::{consumes, queue_sweep, side_sweep};
use vstd::prelude::*;

verus! {

/// Whether one of the levels holds `order`.
pub open spec fn side_holds(levels: Seq<LevelView>, order: OrderView) -> bool {
    exists|i: int, j: int|
        0 <= i < levels.len() && 0 <= j < levels[i].orders.len() && #[trigger] levels[i].orders[j]
            == order
}

impl BookView {
    /// Whether the book holds `order` in one of its containers.
    pub open spec fn holds(self, order: OrderView) -> bool {
        ||| side_holds(self.bids, order)
        ||| side_holds(self.asks, order)
        ||| side_holds(self.stop_bids, order)
        ||| side_holds(self.stop_asks, order)
        ||| self.market_bids.contains(order)
        ||| self.market_asks.contains(order)
    }

    /// The market queue from which takers of the given side are taken.
    pub open spec fn takers(self, side: Side) -> Seq<OrderView> {
        match side {
            Side::Bid => self.market_bids,
            Side::Ask => self.market_asks,
        }
    }

    /// The side against which takers of the given side are matched.
    pub open spec fn makers(self, side: Side) -> Seq<LevelView> {
        match side {
            Side::Bid => self.asks,
            Side::Ask => self.bids,
        }
    }
}

/// Every maker in the one queue of a side in order is within its quantity.
pub proof fn lemma_flatten_within_quantity(levels: Seq<LevelView>, side: Side, shelf: Shelf)
    requires
        side_wf(levels, side, shelf),
    ensures
        all_within_quantity(flatten(levels)),
    decreases levels.len(),
{
    if levels.len() > 0 {
        let tail = levels.drop_first();
        lemma_side_wf_tail(levels, side, shelf);
        lemma_flatten_within_quantity(tail, side, shelf);
        assert(queue_belongs(levels[0].orders, side, shelf, levels[0].price));
    }
}

/// Every order that a book holds has its filled quantity within its
/// quantity.
pub proof fn lemma_held_orders_within_quantity(book: BookView, order: OrderView)
    requires
        book.wf(),
        book.holds(order),
    ensures
        order.filled_quantity <= order.quantity,
{
}

/// Every order that a matching step reports, the taker and each maker, has
/// its filled quantity within its quantity.
pub proof fn lemma_reported_orders_within_quantity(book: BookView, side: Side, cursor: int)
    requires
        book.wf(),
        0 <= cursor,
    ensures
        match book.step(side, cursor).fill {
            Some((taker, trades)) => taker.within_quantity() && all_within_quantity(trades),
            None => true,
        },
{
    lemma_step_is_a_sweep(book, side, cursor);
    let takers = book.takers(side);
    let makers = book.makers(side);
    let at = settles_at(takers, makers, cursor);
    if at < takers.len() {
        let need = takers[at].remaining();
        lemma_side_sweep_keeps_side(makers, need, side.opposite());
        lemma_side_sweep_is_queue_sweep(makers, need);
        lemma_match_conserves(takers, makers, cursor);
        assert(takers[at].within_quantity());
        match book.step(side, cursor).fill {
            Some((taker, trades)) => {
                assert(trades == side_sweep(makers, need).trades);
                assert forall|k: int| 0 <= k < trades.len() implies (#[trigger] trades[k]).within_quantity() by {
                    assert(side_sweep(makers, need).trades[k].within_quantity());
                }
            },
            None => {},
        }
    }
}

/// A matching step is one sweep. Where it settles at a taker, the makers
/// that are left, in the order in which a sweep visits them, are what a
/// sweep of the makers' one queue for the taker's need leaves, and the trades
/// reported are the trades of that sweep. Where it settles at no taker, it
/// leaves the book as it was.
pub proof fn lemma_step_is_a_sweep(book: BookView, side: Side, cursor: int)
    requires
        book.wf(),
        0 <= cursor,
    ensures
        market_wf(book.takers(side), side),
        side_wf(book.makers(side), side.opposite(), Shelf::Resting),
        all_within_quantity(book.takers(side)),
        all_within_quantity(flatten(book.makers(side))),
        book.step(side, cursor) == match_from(book.takers(side), book.makers(side), cursor),
        ({
            let takers = book.takers(side);
            let makers = book.makers(side);
            let at = settles_at(takers, makers, cursor);
            let m = book.step(side, cursor);
            if at < takers.len() {
                let s = queue_sweep(flatten(makers), takers[at].remaining());
                &&& cursor <= at
                &&& m.makers == side_sweep(makers, takers[at].remaining()).levels
                &&& flatten(m.makers) == s.rest
                &&& m.fill matches Some((_, trades)) ==> trades == s.trades
                &&& m.fill is None ==> s.trades.len() == 0
            } else {
                &&& m.fill is None
                &&& m.takers == takers
                &&& m.makers == makers
            }
        }),
{
    let takers = book.takers(side);
    let makers = book.makers(side);
    lemma_flatten_within_quantity(makers, side.opposite(), Shelf::Resting);
    lemma_settled_step(takers, makers, cursor);
}

/// The matching step from `cursor` is the sweep for the taker at which it
/// settles.
pub proof fn lemma_settled_step(takers: Seq<OrderView>, makers: Seq<LevelView>, cursor: int)
    requires
        0 <= cursor,
    ensures
        ({
            let at = settles_at(takers, makers, cursor);
            let m = match_from(takers, makers, cursor);
            if at < takers.len() {
                let s = queue_sweep(flatten(makers), takers[at].remaining());
                &&& cursor <= at
                &&& m.makers == side_sweep(makers, takers[at].remaining()).levels
                &&& flatten(m.makers) == s.rest
                &&& m.fill matches Some((_, trades)) ==> trades == s.trades
                &&& m.fill is None ==> s.trades.len() == 0
            } else {
                &&& m.fill is None
                &&& m.takers == takers
                &&& m.makers == makers
            }
        }),
    decreases takers.len() - cursor,
{
    if cursor < takers.len() {
        let taker = takers[cursor];
        let s = side_sweep(makers, taker.remaining());
        if taker.only_full_fill && s.need > 0 {
            lemma_settled_step(takers, makers, cursor + 1);
        } else {
            lemma_side_sweep_is_queue_sweep(makers, taker.remaining());
        }
    }
}

/// A matching step keeps the book in order.
pub proof fn lemma_step_keeps_book(book: BookView, side: Side, cursor: int)
    requires
        book.wf(),
    ensures
        book.matched(side, cursor).wf(),
{
    lemma_match_keeps_order(book.takers(side), book.makers(side), side, cursor);
}

/// Quantity is conserved by a matching step: what has left the makers'
/// side and what the reported taker still needs make up what that taker
/// needed before the step.
pub proof fn lemma_step_conserves(book: BookView, side: Side, cursor: int)
    requires
        book.wf(),
        0 <= cursor,
    ensures
        match book.step(side, cursor).fill {
            Some((after, trades)) => {
                let before = book.takers(side)[settles_at(
                    book.takers(side),
                    book.makers(side),
                    cursor,
                )];
                &&& after == before.filled_by((before.remaining() - after.remaining()) as nat)
                &&& resting(book.makers(side)) - resting(book.step(side, cursor).makers)
                    + after.remaining() == before.remaining()
            },
            None => book.matched(side, cursor) == book,
        },
{
    lemma_step_is_a_sweep(book, side, cursor);
    lemma_match_conserves(book.takers(side), book.makers(side), cursor);
    if book.step(side, cursor).fill is None {
        lemma_nothing_reported_nothing_changed(book.takers(side), book.makers(side), cursor);
    }
}

/// A matching step never leaves a maker that may only be filled in full
/// with a part of a fill: each such maker that is left on the side stood
/// there before the step exactly as it is, and each such maker that is
/// reported as a trade is filled entirely.
pub proof fn lemma_step_spares_all_or_nothing_makers(book: BookView, side: Side, cursor: int)
    requires
        book.wf(),
        0 <= cursor,
    ensures
        forall|k: int|
            0 <= k < flatten(book.step(side, cursor).makers).len() && (#[trigger] flatten(
                book.step(side, cursor).makers,
            )[k]).only_full_fill ==> flatten(book.makers(side)).contains(
                flatten(book.step(side, cursor).makers)[k],
            ),
        match book.step(side, cursor).fill {
            Some((_, trades)) => forall|k: int|
                0 <= k < trades.len() && (#[trigger] trades[k]).only_full_fill
                    ==> trades[k].filled_quantity == trades[k].quantity,
            None => true,
        },
{
    lemma_step_is_a_sweep(book, side, cursor);
    let takers = book.takers(side);
    let makers = book.makers(side);
    let flat = flatten(makers);
    let at = settles_at(takers, makers, cursor);
    let left = flatten(book.step(side, cursor).makers);
    if at < takers.len() {
        let need = takers[at].remaining();
        lemma_all_or_nothing_makers(flat, need);
        lemma_rest_keeps_arrival_order(flat, need);
        assert forall|k: int| 0 <= k < left.len() && (#[trigger] left[k]).only_full_fill implies flat.contains(
            left[k],
        ) by {
            let i = staying(flat, need)[k];
            assert(left[k] == flat[i]);
        }
    } else {
        assert forall|k: int| 0 <= k < left.len() && (#[trigger] left[k]).only_full_fill implies flat.contains(
            left[k],
        ) by {
            assert(left[k] == flat[k]);
        }
    }
}

/// Price-time priority of a matching step. Take the makers in the order in
/// which the sweep visits them, by price and at one price by arrival. Each
/// reported trade is the fill of the maker at one position of that order,
/// and the positions ascend with the trades. Every maker that stands before
/// the maker of a trade has the better price or the same price, and was
/// consumed entirely, unless it may only be filled in full and had more left
/// than the taker needed on reaching it.
pub proof fn lemma_step_follows_priority(book: BookView, side: Side, cursor: int, k: int, i: int)
    requires
        book.wf(),
        0 <= cursor,
        settles_at(book.takers(side), book.makers(side), cursor) < book.takers(side).len(),
        ({
            let at = settles_at(book.takers(side), book.makers(side), cursor);
            let positions = trading(
                flatten(book.makers(side)),
                book.takers(side)[at].remaining(),
            );
            0 <= k < positions.len() && 0 <= i < positions[k]
        }),
    ensures
        ({
            let flat = flatten(book.makers(side));
            let at = settles_at(book.takers(side), book.makers(side), cursor);
            let need = book.takers(side)[at].remaining();
            let j = trading(flat, need)[k];
            &&& 0 <= i < j < flat.len()
            &&& match book.step(side, cursor).fill {
                Some((_, trades)) => k < trades.len() && trades[k] == maker_after(flat, need, j),
                None => false,
            }
            &&& forall|l: int| 0 <= l < k ==> #[trigger] trading(flat, need)[l] < j
            &&& flat[i].limit_price == flat[j].limit_price || better(
                side.opposite(),
                flat[i].limit_price,
                flat[j].limit_price,
            )
            &&& consumes(flat[i], need_at(flat, need, i)) || (flat[i].only_full_fill
                && flat[i].remaining() > need_at(flat, need, i))
        }),
{
    lemma_step_is_a_sweep(book, side, cursor);
    let flat = flatten(book.makers(side));
    let at = settles_at(book.takers(side), book.makers(side), cursor);
    let need = book.takers(side)[at].remaining();
    lemma_trades_keep_arrival_order(flat, need);
    lemma_earlier_makers_go_first(flat, need, k, i);
    lemma_flatten_follows_price(book.makers(side), side.opposite(), i, trading(flat, need)[k]);
}

} // verus!
