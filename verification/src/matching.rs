//! One matching step: the first market order in a queue that can trade is
//! swept against the resting orders of the opposite side.
//!
//! A taker that may only be filled in full is tried against the book before
//! anything is changed. Where the book cannot fill it whole, it is left
//! waiting and the next taker in the queue is tried; no maker is touched on
//! its account.

use crate::level::{levels_view, queue_view, LevelView, PriceLevel};
use crate::order::{Order, OrderView};
use crate::sweep::{fill_of, probe_levels, queue_sweep, side_sweep, sweep_levels};
use crate::u256::U256;
use std::collections::VecDeque;
use vstd::prelude::*;

verus! {

/// What one matching step leaves of the takers' queue and of the makers'
/// side, and what it reports: the taker after its fill and the trades, or
/// nothing.
pub struct MatchView {
    pub takers: Seq<OrderView>,
    pub makers: Seq<LevelView>,
    pub fill: Option<(OrderView, Seq<OrderView>)>,
}

/// The matching step that starts at position `cursor` of the takers' queue.
///
/// The taker at the cursor is swept against the makers. If it may only be
/// filled in full and the makers cannot fill it, the step moves on to the
/// next taker and changes nothing. Otherwise the sweep stands: with no trade
/// nothing is reported; a taker that is filled leaves its queue; one that is
/// filled in part stays with its new filled quantity.
pub open spec fn match_from(takers: Seq<OrderView>, makers: Seq<LevelView>, cursor: int) -> MatchView
    decreases takers.len() - cursor,
{
    if cursor < 0 || cursor >= takers.len() {
        MatchView { takers, makers, fill: None }
    } else {
        let taker = takers[cursor];
        let need = taker.remaining();
        let s = side_sweep(makers, need);
        if taker.only_full_fill && s.need > 0 {
            match_from(takers, makers, cursor + 1)
        } else if s.trades.len() == 0 {
            MatchView { takers, makers: s.levels, fill: None }
        } else {
            let after = taker.filled_by((need - s.need) as nat);
            MatchView {
                takers: if s.need == 0 {
                    takers.remove(cursor)
                } else {
                    takers.update(cursor, after)
                },
                makers: s.levels,
                fill: Some((after, s.trades)),
            }
        }
    }
}

/// What a matching step reports, as plain values.
pub open spec fn fill_view(fill: Option<(Order, Vec<Order>)>) -> Option<(OrderView, Seq<OrderView>)> {
    match fill {
        Some((taker, trades)) => Some((taker@, queue_view(trades@))),
        None => None,
    }
}

/// A sweep of a queue never leaves more need than it was given.
pub proof fn lemma_queue_sweep_need(queue: Seq<OrderView>, need: nat)
    ensures
        queue_sweep(queue, need).need <= need,
    decreases queue.len(),
{
    if queue.len() > 0 {
        lemma_queue_sweep_need(queue.drop_first(), (need - fill_of(queue.first(), need)) as nat);
    }
}

/// A sweep of a side never leaves more need than it was given.
pub proof fn lemma_side_sweep_need(levels: Seq<LevelView>, need: nat)
    ensures
        side_sweep(levels, need).need <= need,
    decreases levels.len(),
{
    if need > 0 && levels.len() > 0 {
        lemma_queue_sweep_need(levels.first().orders, need);
        lemma_side_sweep_need(levels.drop_first(), queue_sweep(levels.first().orders, need).need);
    }
}

/// Runs the matching step that starts at position `cursor` of `takers`
/// against `makers`.
pub fn take_order(
    takers: &mut VecDeque<Order>,
    makers: &mut Vec<PriceLevel>,
    cursor: usize,
) -> (r: Option<(Order, Vec<Order>)>)
    ensures
        ({
            let m = match_from(queue_view(old(takers)@), levels_view(old(makers)@), cursor as int);
            &&& queue_view(final(takers)@) == m.takers
            &&& levels_view(final(makers)@) == m.makers
            &&& fill_view(r) == m.fill
        }),
{
    let ghost waiting = queue_view(takers@);
    let ghost resting = levels_view(makers@);
    let mut at = cursor;
    while at < takers.len()
        invariant
            cursor <= at,
            waiting == queue_view(old(takers)@),
            resting == levels_view(old(makers)@),
            queue_view(takers@) == waiting,
            levels_view(makers@) == resting,
            match_from(waiting, resting, cursor as int) == match_from(waiting, resting, at as int),
        decreases takers.len() - at,
    {
        let need = takers[at].remaining();
        proof {
            lemma_side_sweep_need(resting, need@);
        }
        if takers[at].only_full_fill() && !probe_levels(makers, need).is_zero() {
            at += 1;
        } else {
            let (trades, left) = sweep_levels(makers, need);
            if trades.len() == 0 {
                return None;
            }
            let given = match need.checked_sub(left) {
                Some(given) => given,
                None => U256::zero(),
            };
            match takers.remove(at) {
                Some(mut taker) => {
                    taker.fill(given);
                    if left.is_zero() {
                        proof {
                            assert(queue_view(takers@) == waiting.remove(at as int));
                        }
                    } else {
                        takers.insert(at, taker.clone());
                        proof {
                            assert(queue_view(takers@) == waiting.update(at as int, taker@));
                        }
                    }
                    return Some((taker, trades));
                },
                None => {
                    return None;
                },
            }
        }
    }
    None
}

} // verus!
