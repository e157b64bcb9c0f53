//! Price levels: the orders resting at one price, oldest first, and the
//! price-ordered list of levels that makes up one side of a book.
//!
//! A side is kept best price first, which is the order in which a sweep
//! visits it: asks by ascending price, bids by descending price.

use crate::order::{Order, OrderView, Side};
use crate::u256::U256;
use std::collections::VecDeque;
use vstd::prelude::*;

verus! {

/// The orders at one price, oldest first.
pub struct LevelView {
    pub price: nat,
    pub orders: Seq<OrderView>,
}

/// The orders resting at one price, in order of admission.
#[derive(Debug)]
pub struct PriceLevel {
    pub price: U256,
    pub orders: VecDeque<Order>,
}

/// A queue of orders as plain values.
pub open spec fn queue_view(orders: Seq<Order>) -> Seq<OrderView> {
    Seq::new(orders.len(), |i: int| orders[i]@)
}

impl View for PriceLevel {
    type V = LevelView;

    open spec fn view(&self) -> LevelView {
        LevelView { price: self.price@, orders: queue_view(self.orders@) }
    }
}

/// A list of levels as plain values.
pub open spec fn levels_view(levels: Seq<PriceLevel>) -> Seq<LevelView> {
    Seq::new(levels.len(), |i: int| levels[i]@)
}

/// Whether price `p` is visited before price `q` on the given side: the
/// lower ask first, the higher bid first.
pub open spec fn better(side: Side, p: nat, q: nat) -> bool {
    match side {
        Side::Ask => p < q,
        Side::Bid => p > q,
    }
}

/// The levels are strictly ordered, best price first. No price occurs twice.
pub open spec fn sorted(levels: Seq<LevelView>, side: Side) -> bool {
    forall|i: int, j: int|
        0 <= i < j < levels.len() ==> better(side, #[trigger] levels[i].price, #[trigger] levels[j].price)
}

/// No level is left without orders.
pub open spec fn no_empty_level(levels: Seq<LevelView>) -> bool {
    forall|i: int| 0 <= i < levels.len() ==> (#[trigger] levels[i]).orders.len() > 0
}

/// The number of levels whose price is strictly better than `price`: the
/// place of `price` on the side.
pub open spec fn position(levels: Seq<LevelView>, side: Side, price: nat) -> nat
    decreases levels.len(),
{
    if levels.len() == 0 || !better(side, levels.first().price, price) {
        0
    } else {
        1 + position(levels.drop_first(), side, price)
    }
}

/// The queue at `price`, empty where the side has no such level.
pub open spec fn queue_at(levels: Seq<LevelView>, price: nat) -> Seq<OrderView>
    decreases levels.len(),
{
    if levels.len() == 0 {
        Seq::empty()
    } else if levels.first().price == price {
        levels.first().orders
    } else {
        queue_at(levels.drop_first(), price)
    }
}

/// The side after `order` has joined the back of the queue at `price`. A
/// level is opened at its place where the price is new.
pub open spec fn with_order(levels: Seq<LevelView>, side: Side, price: nat, order: OrderView) -> Seq<
    LevelView,
> {
    let k = position(levels, side, price) as int;
    if k < levels.len() && levels[k].price == price {
        levels.update(k, LevelView { price, orders: levels[k].orders.push(order) })
    } else {
        levels.insert(k, LevelView { price, orders: seq![order] })
    }
}

/// `position` is the first index whose price is not better than `price`.
pub proof fn lemma_position(levels: Seq<LevelView>, side: Side, price: nat, k: int)
    requires
        0 <= k <= levels.len(),
        forall|i: int| 0 <= i < k ==> better(side, #[trigger] levels[i].price, price),
        k < levels.len() ==> !better(side, levels[k].price, price),
    ensures
        position(levels, side, price) == k,
    decreases levels.len(),
{
    if k > 0 {
        let rest = levels.drop_first();
        assert forall|i: int| 0 <= i < k - 1 implies better(side, #[trigger] rest[i].price, price) by {
            assert(rest[i] == levels[i + 1]);
        }
        lemma_position(rest, side, price, k - 1);
    }
}

/// `position` splits a side: every level before it has a better price, and
/// the level at it has not.
pub proof fn lemma_position_splits(levels: Seq<LevelView>, side: Side, price: nat)
    ensures
        position(levels, side, price) <= levels.len(),
        forall|i: int|
            0 <= i < position(levels, side, price) ==> better(side, #[trigger] levels[i].price, price),
        position(levels, side, price) < levels.len() ==> !better(
            side,
            levels[position(levels, side, price) as int].price,
            price,
        ),
    decreases levels.len(),
{
    if levels.len() > 0 && better(side, levels.first().price, price) {
        let rest = levels.drop_first();
        lemma_position_splits(rest, side, price);
        assert forall|i: int| 0 <= i < position(levels, side, price) implies better(
            side,
            #[trigger] levels[i].price,
            price,
        ) by {
            if i > 0 {
                assert(levels[i] == rest[i - 1]);
            }
        }
        let k = position(rest, side, price) as int;
        if k < rest.len() {
            assert(levels[k + 1] == rest[k]);
        }
    }
}

/// Puts `order` at the back of the queue at `price`, opening a level at its
/// place where the side has none at that price.
pub fn insert_order(levels: &mut Vec<PriceLevel>, side: Side, price: U256, order: Order)
    ensures
        levels_view(final(levels)@) == with_order(levels_view(old(levels)@), side, price@, order@),
{
    let ghost before = levels_view(levels@);
    let mut k: usize = 0;
    while k < levels.len() && is_better(side, &levels[k].price, &price)
        invariant
            0 <= k <= levels.len(),
            levels_view(levels@) == before,
            forall|i: int| 0 <= i < k ==> better(side, #[trigger] before[i].price, price@),
        decreases levels.len() - k,
    {
        k += 1;
    }
    proof {
        lemma_position(before, side, price@, k as int);
    }
    if k < levels.len() && levels[k].price.same(&price) {
        let ghost queue = levels[k as int].orders@;
        levels[k].orders.push_back(order);
        assert(queue_view(levels[k as int].orders@) == queue_view(queue).push(order@));
        assert(levels_view(levels@) == with_order(before, side, price@, order@));
    } else {
        let mut orders: VecDeque<Order> = VecDeque::new();
        orders.push_back(order);
        assert(queue_view(orders@) == seq![order@]);
        levels.insert(k, PriceLevel { price, orders });
        assert(levels_view(levels@) == with_order(before, side, price@, order@));
    }
}

/// Whether price `p` is visited before price `q` on the given side.
pub fn is_better(side: Side, p: &U256, q: &U256) -> (r: bool)
    ensures
        r == better(side, p@, q@),
{
    match side {
        Side::Ask => p.lt(q),
        Side::Bid => p.gt(q),
    }
}

} // verus!
