use order_book::book::OrderBook;
use order_book::order::{Order, Side};
use order_book::u256::U256;

fn n(x: u64) -> U256 {
    U256::from_u64(x)
}

fn limit_ask(owner: &str, quantity: u64, price: u64, only_full_fill: bool) -> Order {
    Order::new(owner.to_string(), n(0), n(quantity), n(price), U256::max_value(), 0, Side::Ask, only_full_fill)
}

fn limit_bid(owner: &str, quantity: u64, price: u64, only_full_fill: bool) -> Order {
    Order::new(owner.to_string(), n(0), n(quantity), n(price), U256::zero(), 0, Side::Bid, only_full_fill)
}

fn market_bid(owner: &str, quantity: u64, only_full_fill: bool) -> Order {
    Order::new(owner.to_string(), n(0), n(quantity), U256::max_value(), U256::zero(), 0, Side::Bid, only_full_fill)
}

fn market_ask(owner: &str, quantity: u64, only_full_fill: bool) -> Order {
    Order::new(owner.to_string(), n(0), n(quantity), U256::zero(), U256::max_value(), 0, Side::Ask, only_full_fill)
}

fn owners<'a>(orders: impl IntoIterator<Item = &'a Order>) -> Vec<String> {
    orders.into_iter().map(|o| o.owner().clone()).collect()
}

#[test]
fn a_new_book_is_empty_and_keeps_its_reference_price() {
    let book = OrderBook::from_initial_price(n(100));
    assert_eq!(book.last_price_level(), n(100));
    assert!(book.bids().is_empty());
    assert!(book.asks().is_empty());
    assert!(book.stop_bids().is_empty());
    assert!(book.stop_asks().is_empty());
    assert!(book.market_bids().is_empty());
    assert!(book.market_asks().is_empty());
}

#[test]
fn market_orders_wait_in_arrival_order() {
    let mut book = OrderBook::from_initial_price(n(100));
    assert_eq!(book.add_order(market_bid("a", 1, false)), Ok(()));
    assert_eq!(book.add_order(market_ask("x", 1, false)), Ok(()));
    assert_eq!(book.add_order(market_bid("b", 2, false)), Ok(()));
    assert_eq!(book.add_order(market_bid("c", 3, false)), Ok(()));
    assert_eq!(owners(book.market_bids()), vec!["a", "b", "c"]);
    assert_eq!(owners(book.market_asks()), vec!["x"]);
    assert!(book.bids().is_empty());
    assert!(book.asks().is_empty());
}

#[test]
fn limit_asks_rest_by_ascending_price_and_arrival() {
    let mut book = OrderBook::from_initial_price(n(100));
    for (owner, price) in [("a", 105), ("b", 101), ("c", 103), ("d", 101), ("e", 105), ("f", 102)] {
        assert_eq!(book.add_order(limit_ask(owner, 1, price, false)), Ok(()));
    }
    let asks = book.asks();
    let prices: Vec<U256> = asks.iter().map(|l| l.price).collect();
    assert_eq!(prices, vec![n(101), n(102), n(103), n(105)]);
    assert_eq!(owners(&asks[0].orders), vec!["b", "d"]);
    assert_eq!(owners(&asks[1].orders), vec!["f"]);
    assert_eq!(owners(&asks[2].orders), vec!["c"]);
    assert_eq!(owners(&asks[3].orders), vec!["a", "e"]);
    assert!(book.bids().is_empty());
}

#[test]
fn limit_bids_rest_by_descending_price_and_arrival() {
    let mut book = OrderBook::from_initial_price(n(100));
    for (owner, price) in [("a", 95), ("b", 99), ("c", 97), ("d", 99), ("e", 95)] {
        assert_eq!(book.add_order(limit_bid(owner, 1, price, false)), Ok(()));
    }
    let bids = book.bids();
    let prices: Vec<U256> = bids.iter().map(|l| l.price).collect();
    assert_eq!(prices, vec![n(99), n(97), n(95)]);
    assert_eq!(owners(&bids[0].orders), vec!["b", "d"]);
    assert_eq!(owners(&bids[1].orders), vec!["c"]);
    assert_eq!(owners(&bids[2].orders), vec!["a", "e"]);
    assert!(book.asks().is_empty());
}

#[test]
fn stop_orders_wait_at_their_trigger_price() {
    let mut book = OrderBook::from_initial_price(n(100));
    // A stop bid: no limit, trigger at 110.
    let stop_bid = Order::new("a".to_string(), n(0), n(1), U256::max_value(), n(110), 0, Side::Bid, false);
    // A stop-limit bid: limit 120, trigger at 115.
    let stop_limit_bid = Order::new("b".to_string(), n(0), n(1), n(120), n(115), 0, Side::Bid, false);
    // A stop ask: no limit, trigger at 90.
    let stop_ask = Order::new("c".to_string(), n(0), n(1), U256::zero(), n(90), 0, Side::Ask, false);
    // A stop-limit ask: limit 80, trigger at 85.
    let stop_limit_ask = Order::new("d".to_string(), n(0), n(1), n(80), n(85), 0, Side::Ask, false);
    assert_eq!(book.add_order(stop_bid), Ok(()));
    assert_eq!(book.add_order(stop_limit_bid), Ok(()));
    assert_eq!(book.add_order(stop_ask), Ok(()));
    assert_eq!(book.add_order(stop_limit_ask), Ok(()));
    let stop_bids = book.stop_bids();
    assert_eq!(stop_bids.len(), 2);
    assert_eq!(stop_bids[0].price, n(115));
    assert_eq!(owners(&stop_bids[0].orders), vec!["b"]);
    assert_eq!(stop_bids[1].price, n(110));
    assert_eq!(owners(&stop_bids[1].orders), vec!["a"]);
    let stop_asks = book.stop_asks();
    assert_eq!(stop_asks.len(), 2);
    assert_eq!(stop_asks[0].price, n(85));
    assert_eq!(owners(&stop_asks[0].orders), vec!["d"]);
    assert_eq!(stop_asks[1].price, n(90));
    assert_eq!(owners(&stop_asks[1].orders), vec!["c"]);
    assert!(book.bids().is_empty());
    assert!(book.asks().is_empty());
    assert!(book.market_bids().is_empty());
    assert!(book.market_asks().is_empty());
}

#[test]
fn a_market_bid_and_a_limit_ask_of_equal_size_consume_each_other() {
    let mut book = OrderBook::from_initial_price(n(100));
    assert_eq!(book.add_order(limit_ask("maker", 10, 101, false)), Ok(()));
    assert_eq!(book.add_order(market_bid("taker", 10, false)), Ok(()));
    let (taker, trades) = book.match_next(Side::Bid).expect("the orders cross");
    assert_eq!(taker.owner(), "taker");
    assert_eq!(taker.filled_quantity(), n(10));
    assert_eq!(taker.remaining(), n(0));
    assert_eq!(trades.len(), 1);
    assert_eq!(trades[0].owner(), "maker");
    assert_eq!(trades[0].limit_price(), n(101));
    assert_eq!(trades[0].filled_quantity(), n(10));
    assert_eq!(trades[0].remaining(), n(0));
    assert!(book.asks().is_empty());
    assert!(book.market_bids().is_empty());
    assert_eq!(book.last_price_level(), n(100));
    assert!(book.match_next(Side::Bid).is_none());
}

#[test]
fn an_all_or_nothing_ask_larger_than_the_need_is_passed_by() {
    let mut book = OrderBook::from_initial_price(n(100));
    assert_eq!(book.add_order(limit_ask("maker", 5, 100, true)), Ok(()));
    assert_eq!(book.add_order(market_bid("taker", 3, false)), Ok(()));
    assert!(book.match_next(Side::Bid).is_none());
    let asks = book.asks();
    assert_eq!(asks.len(), 1);
    assert_eq!(asks[0].price, n(100));
    assert_eq!(asks[0].orders.len(), 1);
    assert_eq!(asks[0].orders[0].filled_quantity(), n(0));
    assert_eq!(asks[0].orders[0].quantity(), n(5));
    assert_eq!(book.market_bids().len(), 1);
    assert_eq!(book.market_bids()[0].filled_quantity(), n(0));
}

#[test]
fn two_asks_at_one_price_fill_in_arrival_order() {
    let mut book = OrderBook::from_initial_price(n(100));
    assert_eq!(book.add_order(limit_ask("A", 4, 100, false)), Ok(()));
    assert_eq!(book.add_order(limit_ask("B", 4, 100, false)), Ok(()));
    assert_eq!(book.add_order(market_bid("taker", 6, false)), Ok(()));
    let (taker, trades) = book.match_next(Side::Bid).expect("the orders cross");
    assert_eq!(taker.filled_quantity(), n(6));
    assert_eq!(taker.quantity(), n(6));
    assert_eq!(trades.len(), 2);
    assert_eq!(trades[0].owner(), "A");
    assert_eq!(trades[0].filled_quantity(), n(4));
    assert_eq!(trades[1].owner(), "B");
    assert_eq!(trades[1].filled_quantity(), n(2));
    assert_eq!(trades[1].quantity(), n(4));
    assert!(book.market_bids().is_empty());
    let asks = book.asks();
    assert_eq!(asks.len(), 1);
    assert_eq!(owners(&asks[0].orders), vec!["B"]);
    assert_eq!(asks[0].orders[0].filled_quantity(), n(2));
    assert_eq!(asks[0].orders[0].remaining(), n(2));
}

#[test]
fn an_all_or_nothing_taker_that_cannot_be_filled_touches_no_maker() {
    let mut book = OrderBook::from_initial_price(n(100));
    assert_eq!(book.add_order(limit_ask("m1", 4, 100, false)), Ok(()));
    assert_eq!(book.add_order(limit_ask("m2", 2, 101, false)), Ok(()));
    assert_eq!(book.add_order(market_bid("big", 10, true)), Ok(()));
    assert!(book.match_next(Side::Bid).is_none());
    // Nothing was taken from the makers on account of the failed attempt.
    let asks = book.asks();
    assert_eq!(asks.len(), 2);
    assert_eq!(asks[0].orders[0].filled_quantity(), n(0));
    assert_eq!(asks[1].orders[0].filled_quantity(), n(0));
    assert_eq!(book.market_bids().len(), 1);
    assert_eq!(book.market_bids()[0].filled_quantity(), n(0));
}

#[test]
fn a_later_taker_is_tried_while_an_all_or_nothing_taker_waits() {
    let mut book = OrderBook::from_initial_price(n(100));
    assert_eq!(book.add_order(limit_ask("m1", 4, 100, false)), Ok(()));
    assert_eq!(book.add_order(limit_ask("m2", 2, 101, false)), Ok(()));
    assert_eq!(book.add_order(market_bid("big", 10, true)), Ok(()));
    assert_eq!(book.add_order(market_bid("small", 5, false)), Ok(()));
    let (taker, trades) = book.match_next(Side::Bid).expect("the second taker trades");
    assert_eq!(taker.owner(), "small");
    assert_eq!(taker.filled_quantity(), n(5));
    assert_eq!(owners(&trades), vec!["m1", "m2"]);
    assert_eq!(trades[0].filled_quantity(), n(4));
    assert_eq!(trades[1].filled_quantity(), n(1));
    // The waiting taker keeps its place at the front, untouched.
    assert_eq!(owners(book.market_bids()), vec!["big"]);
    assert_eq!(book.market_bids()[0].filled_quantity(), n(0));
    let asks = book.asks();
    assert_eq!(asks.len(), 1);
    assert_eq!(asks[0].price, n(101));
    assert_eq!(asks[0].orders[0].filled_quantity(), n(1));
    // More liquidity arrives: now the waiting taker can be filled whole.
    assert_eq!(book.add_order(limit_ask("m3", 9, 102, false)), Ok(()));
    let (taker, trades) = book.match_next(Side::Bid).expect("the first taker trades");
    assert_eq!(taker.owner(), "big");
    assert_eq!(taker.filled_quantity(), n(10));
    assert_eq!(owners(&trades), vec!["m2", "m3"]);
    assert_eq!(trades[0].filled_quantity(), n(2));
    assert_eq!(trades[1].filled_quantity(), n(9));
    assert!(book.asks().is_empty());
    assert!(book.market_bids().is_empty());
}

#[test]
fn a_bid_takes_the_lower_ask_first_whatever_the_arrival_order() {
    let mut book = OrderBook::from_initial_price(n(100));
    assert_eq!(book.add_order(limit_ask("dear", 5, 105, false)), Ok(()));
    assert_eq!(book.add_order(limit_ask("cheap", 5, 101, false)), Ok(()));
    assert_eq!(book.add_order(market_bid("taker", 7, false)), Ok(()));
    let (taker, trades) = book.match_next(Side::Bid).expect("the orders cross");
    assert_eq!(taker.filled_quantity(), n(7));
    assert_eq!(owners(&trades), vec!["cheap", "dear"]);
    assert_eq!(trades[0].filled_quantity(), n(5));
    assert_eq!(trades[1].filled_quantity(), n(2));
    let asks = book.asks();
    assert_eq!(asks.len(), 1);
    assert_eq!(asks[0].price, n(105));
    assert_eq!(asks[0].orders[0].remaining(), n(3));
}

#[test]
fn an_earlier_ask_fills_first_whatever_its_size() {
    let mut book = OrderBook::from_initial_price(n(100));
    assert_eq!(book.add_order(limit_ask("early_large", 50, 100, false)), Ok(()));
    assert_eq!(book.add_order(limit_ask("late_small", 1, 100, false)), Ok(()));
    assert_eq!(book.add_order(market_bid("taker", 1, false)), Ok(()));
    let (_, trades) = book.match_next(Side::Bid).expect("the orders cross");
    assert_eq!(owners(&trades), vec!["early_large"]);
    assert_eq!(trades[0].filled_quantity(), n(1));
    assert_eq!(owners(&book.asks()[0].orders), vec!["early_large", "late_small"]);
}

#[test]
fn an_ask_takes_the_higher_bid_first() {
    let mut book = OrderBook::from_initial_price(n(100));
    assert_eq!(book.add_order(limit_bid("low", 5, 95, false)), Ok(()));
    assert_eq!(book.add_order(limit_bid("high", 5, 99, false)), Ok(()));
    assert_eq!(book.add_order(limit_bid("mid", 5, 97, false)), Ok(()));
    assert_eq!(book.add_order(market_ask("taker", 12, false)), Ok(()));
    let (taker, trades) = book.match_next(Side::Ask).expect("the orders cross");
    assert_eq!(taker.owner(), "taker");
    assert_eq!(taker.filled_quantity(), n(12));
    assert_eq!(owners(&trades), vec!["high", "mid", "low"]);
    assert_eq!(trades[2].filled_quantity(), n(2));
    let bids = book.bids();
    assert_eq!(bids.len(), 1);
    assert_eq!(bids[0].price, n(95));
    assert_eq!(bids[0].orders[0].remaining(), n(3));
    assert!(book.market_asks().is_empty());
    // The asks' own side was not involved.
    assert!(book.asks().is_empty());
    assert!(book.match_next(Side::Bid).is_none());
}

#[test]
fn a_taker_larger_than_the_book_stays_with_a_partial_fill() {
    let mut book = OrderBook::from_initial_price(n(100));
    assert_eq!(book.add_order(limit_ask("m1", 4, 100, false)), Ok(()));
    assert_eq!(book.add_order(limit_ask("m2", 2, 101, false)), Ok(()));
    assert_eq!(book.add_order(market_bid("taker", 10, false)), Ok(()));
    let (taker, trades) = book.match_next(Side::Bid).expect("the orders cross");
    assert_eq!(taker.filled_quantity(), n(6));
    assert_eq!(taker.remaining(), n(4));
    assert_eq!(owners(&trades), vec!["m1", "m2"]);
    assert!(book.asks().is_empty());
    assert_eq!(book.market_bids().len(), 1);
    assert_eq!(book.market_bids()[0].filled_quantity(), n(6));
    // With no ask left the waiting taker has nothing to trade with.
    assert!(book.match_next(Side::Bid).is_none());
    assert_eq!(book.market_bids()[0].filled_quantity(), n(6));
    // It goes on from where it stood when liquidity arrives.
    assert_eq!(book.add_order(limit_ask("m3", 9, 102, false)), Ok(()));
    let (taker, trades) = book.match_next(Side::Bid).expect("the orders cross");
    assert_eq!(taker.filled_quantity(), n(10));
    assert_eq!(trades[0].filled_quantity(), n(4));
    assert_eq!(book.asks()[0].orders[0].remaining(), n(5));
    assert!(book.market_bids().is_empty());
}

#[test]
fn an_all_or_nothing_maker_is_passed_by_and_later_makers_are_reached() {
    let mut book = OrderBook::from_initial_price(n(100));
    assert_eq!(book.add_order(limit_ask("block", 8, 100, true)), Ok(()));
    assert_eq!(book.add_order(limit_ask("next", 3, 100, false)), Ok(()));
    assert_eq!(book.add_order(limit_ask("far", 8, 101, true)), Ok(()));
    assert_eq!(book.add_order(limit_ask("last", 3, 102, false)), Ok(()));
    assert_eq!(book.add_order(market_bid("taker", 5, false)), Ok(()));
    let (taker, trades) = book.match_next(Side::Bid).expect("the orders cross");
    assert_eq!(taker.filled_quantity(), n(5));
    assert_eq!(owners(&trades), vec!["next", "last"]);
    assert_eq!(trades[0].filled_quantity(), n(3));
    assert_eq!(trades[1].filled_quantity(), n(2));
    let asks = book.asks();
    assert_eq!(asks.len(), 3);
    assert_eq!(owners(&asks[0].orders), vec!["block"]);
    assert_eq!(asks[0].orders[0].filled_quantity(), n(0));
    assert_eq!(owners(&asks[1].orders), vec!["far"]);
    assert_eq!(asks[1].orders[0].filled_quantity(), n(0));
    assert_eq!(owners(&asks[2].orders), vec!["last"]);
    assert_eq!(asks[2].orders[0].filled_quantity(), n(2));
}

#[test]
fn an_all_or_nothing_maker_that_fits_is_consumed_whole() {
    let mut book = OrderBook::from_initial_price(n(100));
    assert_eq!(book.add_order(limit_ask("whole", 5, 100, true)), Ok(()));
    assert_eq!(book.add_order(market_bid("taker", 5, true)), Ok(()));
    let (taker, trades) = book.match_next(Side::Bid).expect("the orders cross");
    assert_eq!(taker.filled_quantity(), n(5));
    assert_eq!(trades.len(), 1);
    assert_eq!(trades[0].filled_quantity(), n(5));
    assert!(book.asks().is_empty());
    assert!(book.market_bids().is_empty());
}

#[test]
fn a_taker_of_quantity_zero_trades_nothing() {
    let mut book = OrderBook::from_initial_price(n(100));
    assert_eq!(book.add_order(limit_ask("maker", 5, 100, false)), Ok(()));
    assert_eq!(book.add_order(market_bid("empty", 0, false)), Ok(()));
    assert!(book.match_next(Side::Bid).is_none());
    assert_eq!(book.asks()[0].orders[0].filled_quantity(), n(0));
    assert_eq!(book.market_bids().len(), 1);
}

#[test]
fn a_step_without_market_orders_reports_nothing() {
    let mut book = OrderBook::from_initial_price(n(100));
    assert_eq!(book.add_order(limit_ask("maker", 5, 100, false)), Ok(()));
    assert!(book.match_next(Side::Bid).is_none());
    assert!(book.match_next(Side::Ask).is_none());
    assert!(book.take_bid_order(3).is_none());
    assert_eq!(book.asks().len(), 1);
}

#[test]
fn a_step_can_start_behind_the_front_of_the_queue() {
    let mut book = OrderBook::from_initial_price(n(100));
    assert_eq!(book.add_order(limit_bid("maker", 5, 99, false)), Ok(()));
    assert_eq!(book.add_order(market_ask("first", 2, false)), Ok(()));
    assert_eq!(book.add_order(market_ask("second", 1, false)), Ok(()));
    let (taker, trades) = book.take_ask_order(1).expect("the orders cross");
    assert_eq!(taker.owner(), "second");
    assert_eq!(trades[0].filled_quantity(), n(1));
    assert_eq!(owners(book.market_asks()), vec!["first"]);
    let (taker, trades) = book.take_ask_order(0).expect("the orders cross");
    assert_eq!(taker.owner(), "first");
    assert_eq!(trades[0].filled_quantity(), n(3));
    assert!(book.market_asks().is_empty());
}

#[test]
fn what_the_makers_give_is_what_the_taker_gets() {
    let mut book = OrderBook::from_initial_price(n(100));
    assert_eq!(book.add_order(limit_ask("a", 3, 100, false)), Ok(()));
    assert_eq!(book.add_order(limit_ask("b", 9, 100, true)), Ok(()));
    assert_eq!(book.add_order(limit_ask("c", 4, 101, false)), Ok(()));
    assert_eq!(book.add_order(limit_ask("d", 6, 103, false)), Ok(()));
    assert_eq!(book.add_order(market_bid("taker", 10, false)), Ok(()));
    // 22 rest before the step.
    let (taker, trades) = book.match_next(Side::Bid).expect("the orders cross");
    assert_eq!(owners(&trades), vec!["a", "c", "d"]);
    assert_eq!(taker.remaining(), n(0));
    let mut resting = 0u64;
    for level in book.asks().iter() {
        for o in level.orders.iter() {
            resting += o.remaining().into_limbs()[0];
        }
    }
    // 10 were needed, none is still open, so 10 have left the asks.
    assert_eq!(resting, 12);
    assert_eq!(book.asks()[1].orders[0].remaining(), n(3));
}

#[test]
fn quantities_beyond_sixty_four_bits_are_matched_exactly() {
    let mut book = OrderBook::from_initial_price(n(100));
    let large = U256::from_limbs([0, 0, 1, 0]);
    let maker = Order::new("maker".to_string(), n(0), large, n(100), U256::max_value(), 0, Side::Ask, false);
    let taker = Order::new("taker".to_string(), n(0), n(1), U256::max_value(), U256::zero(), 0, Side::Bid, false);
    assert_eq!(book.add_order(maker), Ok(()));
    assert_eq!(book.add_order(taker), Ok(()));
    let (taker, trades) = book.match_next(Side::Bid).expect("the orders cross");
    assert_eq!(taker.filled_quantity(), n(1));
    assert_eq!(trades[0].filled_quantity(), n(1));
    assert_eq!(
        book.asks()[0].orders[0].remaining(),
        U256::from_limbs([u64::MAX, u64::MAX, 0, 0])
    );
}
