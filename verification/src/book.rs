//! The order book of one instrument.
//!
//! Limit orders rest on the `bids` and `asks` sides at their limit price.
//! Stop and stop-limit orders wait on the `stop_bids` and `stop_asks` sides at
//! their trigger price. Market orders wait in arrival order for the next
//! matching step. Each side is kept best price first: asks by ascending price,
//! bids by descending price.

use crate::level::{insert_order, levels_view, queue_view, with_order, LevelView, PriceLevel};
use crate::matching::{fill_view, match_from, take_order, MatchView};
use crate::order::{InvalidOrder, Order, OrderType, OrderView, Side};
use crate::place::{
    lemma_match_keeps_order, lemma_with_order_keeps_side, market_wf, side_wf, Shelf,
};
use crate::u256::U256;
use std::collections::VecDeque;
use vstd::prelude::*;

verus! {

/// What a book holds, as plain values.
pub struct BookView {
    pub bids: Seq<LevelView>,
    pub asks: Seq<LevelView>,
    pub stop_bids: Seq<LevelView>,
    pub stop_asks: Seq<LevelView>,
    pub market_bids: Seq<OrderView>,
    pub market_asks: Seq<OrderView>,
    pub last_price_level: nat,
}

impl BookView {
    /// Every side is in order and every order is held where its kind, side
    /// and price put it, with its filled quantity within its quantity.
    pub open spec fn wf(self) -> bool {
        &&& side_wf(self.bids, Side::Bid, Shelf::Resting)
        &&& side_wf(self.asks, Side::Ask, Shelf::Resting)
        &&& side_wf(self.stop_bids, Side::Bid, Shelf::Waiting)
        &&& side_wf(self.stop_asks, Side::Ask, Shelf::Waiting)
        &&& market_wf(self.market_bids, Side::Bid)
        &&& market_wf(self.market_asks, Side::Ask)
    }

    /// The empty book seeded with a reference price.
    pub open spec fn seeded(price: nat) -> BookView {
        BookView {
            bids: Seq::empty(),
            asks: Seq::empty(),
            stop_bids: Seq::empty(),
            stop_asks: Seq::empty(),
            market_bids: Seq::empty(),
            market_asks: Seq::empty(),
            last_price_level: price,
        }
    }

    /// The book after an order of the given kind has been admitted: a market
    /// order joins the back of its side's market queue, a limit order the
    /// queue at its limit price, a stop or stop-limit order the queue at its
    /// trigger price.
    pub open spec fn accept(self, order: OrderView, kind: OrderType) -> BookView {
        match (kind, order.side) {
            (OrderType::Market, Side::Bid) => BookView {
                market_bids: self.market_bids.push(order),
                ..self
            },
            (OrderType::Market, Side::Ask) => BookView {
                market_asks: self.market_asks.push(order),
                ..self
            },
            (OrderType::Limit, Side::Bid) => BookView {
                bids: with_order(self.bids, Side::Bid, order.limit_price, order),
                ..self
            },
            (OrderType::Limit, Side::Ask) => BookView {
                asks: with_order(self.asks, Side::Ask, order.limit_price, order),
                ..self
            },
            (_, Side::Bid) => BookView {
                stop_bids: with_order(self.stop_bids, Side::Bid, order.stop_price, order),
                ..self
            },
            (_, Side::Ask) => BookView {
                stop_asks: with_order(self.stop_asks, Side::Ask, order.stop_price, order),
                ..self
            },
        }
    }

    /// The matching step for takers of the given side that starts at
    /// position `cursor` of their market queue: bids are matched against the
    /// asks, asks against the bids.
    pub open spec fn step(self, side: Side, cursor: int) -> MatchView {
        match side {
            Side::Bid => match_from(self.market_bids, self.asks, cursor),
            Side::Ask => match_from(self.market_asks, self.bids, cursor),
        }
    }

    /// The book after that matching step.
    pub open spec fn matched(self, side: Side, cursor: int) -> BookView {
        let m = self.step(side, cursor);
        match side {
            Side::Bid => BookView { market_bids: m.takers, asks: m.makers, ..self },
            Side::Ask => BookView { market_asks: m.takers, bids: m.makers, ..self },
        }
    }
}

/// The order book of one instrument.
#[derive(Debug)]
pub struct OrderBook {
    bids: Vec<PriceLevel>,
    asks: Vec<PriceLevel>,
    stop_bids: Vec<PriceLevel>,
    stop_asks: Vec<PriceLevel>,
    market_bids: VecDeque<Order>,
    market_asks: VecDeque<Order>,
    last_price_level: U256,
}

impl View for OrderBook {
    type V = BookView;

    closed spec fn view(&self) -> BookView {
        BookView {
            bids: levels_view(self.bids@),
            asks: levels_view(self.asks@),
            stop_bids: levels_view(self.stop_bids@),
            stop_asks: levels_view(self.stop_asks@),
            market_bids: queue_view(self.market_bids@),
            market_asks: queue_view(self.market_asks@),
            last_price_level: self.last_price_level@,
        }
    }
}

impl OrderBook {
    /// The book is in order. Every book starts so and every operation keeps
    /// it so.
    pub open spec fn wf(&self) -> bool {
        self@.wf()
    }

    /// An empty book whose last traded price is `initial_price`.
    pub fn from_initial_price(initial_price: U256) -> (book: OrderBook)
        ensures
            book.wf(),
            book@ == BookView::seeded(initial_price@),
    {
        let book = OrderBook {
            bids: Vec::new(),
            asks: Vec::new(),
            stop_bids: Vec::new(),
            stop_asks: Vec::new(),
            market_bids: VecDeque::new(),
            market_asks: VecDeque::new(),
            last_price_level: initial_price,
        };
        assert(levels_view(Seq::<PriceLevel>::empty()) == Seq::<LevelView>::empty());
        assert(queue_view(Seq::<Order>::empty()) == Seq::<OrderView>::empty());
        book
    }

    /// Admits `order`: classifies it and puts it where its kind and side
    /// belong. An order that encodes no order type is turned away and the
    /// book is left as it was.
    pub fn add_order(&mut self, order: Order) -> (r: Result<(), InvalidOrder>)
        requires
            old(self).wf(),
        ensures
            final(self).wf(),
            match order@.kind() {
                Some(kind) => r == Ok::<(), InvalidOrder>(()) && final(self)@ == old(self)@.accept(
                    order@,
                    kind,
                ),
                None => r == Err::<(), InvalidOrder>(InvalidOrder) && final(self)@ == old(self)@,
            },
    {
        let kind = match order.order_type() {
            Ok(kind) => kind,
            Err(e) => {
                return Err(e);
            },
        };
        let side = order.side();
        let ghost before = self@;
        let ghost placed = order@;
        proof {
            use_type_invariant(&order);
        }
        match kind {
            OrderType::Market => {
                match side {
                    Side::Bid => {
                        self.market_bids.push_back(order);
                        assert(self@.market_bids == before.market_bids.push(placed));
                    },
                    Side::Ask => {
                        self.market_asks.push_back(order);
                        assert(self@.market_asks == before.market_asks.push(placed));
                    },
                }
            },
            OrderType::Limit => {
                let price = order.limit_price();
                match side {
                    Side::Bid => {
                        proof {
                            lemma_with_order_keeps_side(
                                before.bids,
                                Side::Bid,
                                Shelf::Resting,
                                price@,
                                placed,
                            );
                        }
                        insert_order(&mut self.bids, Side::Bid, price, order);
                    },
                    Side::Ask => {
                        proof {
                            lemma_with_order_keeps_side(
                                before.asks,
                                Side::Ask,
                                Shelf::Resting,
                                price@,
                                placed,
                            );
                        }
                        insert_order(&mut self.asks, Side::Ask, price, order);
                    },
                }
            },
            OrderType::Stop | OrderType::StopLimit => {
                let price = order.stop_price();
                match side {
                    Side::Bid => {
                        proof {
                            lemma_with_order_keeps_side(
                                before.stop_bids,
                                Side::Bid,
                                Shelf::Waiting,
                                price@,
                                placed,
                            );
                        }
                        insert_order(&mut self.stop_bids, Side::Bid, price, order);
                    },
                    Side::Ask => {
                        proof {
                            lemma_with_order_keeps_side(
                                before.stop_asks,
                                Side::Ask,
                                Shelf::Waiting,
                                price@,
                                placed,
                            );
                        }
                        insert_order(&mut self.stop_asks, Side::Ask, price, order);
                    },
                }
            },
        }
        Ok(())
    }

    /// One matching step for the market bids, starting at position `cursor`
    /// of their queue, against the asks.
    pub fn take_bid_order(&mut self, cursor: usize) -> (r: Option<(Order, Vec<Order>)>)
        requires
            old(self).wf(),
        ensures
            final(self).wf(),
            final(self)@ == old(self)@.matched(Side::Bid, cursor as int),
            fill_view(r) == old(self)@.step(Side::Bid, cursor as int).fill,
    {
        proof {
            lemma_match_keeps_order(self@.market_bids, self@.asks, Side::Bid, cursor as int);
        }
        take_order(&mut self.market_bids, &mut self.asks, cursor)
    }

    /// One matching step for the market asks, starting at position `cursor`
    /// of their queue, against the bids.
    pub fn take_ask_order(&mut self, cursor: usize) -> (r: Option<(Order, Vec<Order>)>)
        requires
            old(self).wf(),
        ensures
            final(self).wf(),
            final(self)@ == old(self)@.matched(Side::Ask, cursor as int),
            fill_view(r) == old(self)@.step(Side::Ask, cursor as int).fill,
    {
        proof {
            lemma_match_keeps_order(self@.market_asks, self@.bids, Side::Ask, cursor as int);
        }
        take_order(&mut self.market_asks, &mut self.bids, cursor)
    }

    /// One matching step for takers of the given side, starting at the front
    /// of their market queue. Reports the taker after its fill together with
    /// the trades, or nothing where no market order of that side can trade.
    pub fn match_next(&mut self, side: Side) -> (r: Option<(Order, Vec<Order>)>)
        requires
            old(self).wf(),
        ensures
            final(self).wf(),
            final(self)@ == old(self)@.matched(side, 0),
            fill_view(r) == old(self)@.step(side, 0).fill,
    {
        match side {
            Side::Bid => self.take_bid_order(0),
            Side::Ask => self.take_ask_order(0),
        }
    }

    /// The resting limit bids, highest price first.
    pub fn bids(&self) -> (r: &Vec<PriceLevel>)
        ensures
            levels_view(r@) == self@.bids,
    {
        &self.bids
    }

    /// The resting limit asks, lowest price first.
    pub fn asks(&self) -> (r: &Vec<PriceLevel>)
        ensures
            levels_view(r@) == self@.asks,
    {
        &self.asks
    }

    /// The waiting stop and stop-limit bids, highest trigger price first.
    pub fn stop_bids(&self) -> (r: &Vec<PriceLevel>)
        ensures
            levels_view(r@) == self@.stop_bids,
    {
        &self.stop_bids
    }

    /// The waiting stop and stop-limit asks, lowest trigger price first.
    pub fn stop_asks(&self) -> (r: &Vec<PriceLevel>)
        ensures
            levels_view(r@) == self@.stop_asks,
    {
        &self.stop_asks
    }

    /// The market bids that wait for a matching step, oldest first.
    pub fn market_bids(&self) -> (r: &VecDeque<Order>)
        ensures
            queue_view(r@) == self@.market_bids,
    {
        &self.market_bids
    }

    /// The market asks that wait for a matching step, oldest first.
    pub fn market_asks(&self) -> (r: &VecDeque<Order>)
        ensures
            queue_view(r@) == self@.market_asks,
    {
        &self.market_asks
    }

    /// The most recent traded price.
    pub fn last_price_level(&self) -> (r: U256)
        ensures
            r@ == self@.last_price_level,
    {
        self.last_price_level
    }
}

} // verus!
