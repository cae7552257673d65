use zero_alloc_lob::engine::book::{BookError, OrderBook, ORDER_RECORD_BYTES};
use zero_alloc_lob::engine::matcher::execute_match;
use zero_alloc_lob::storage::layout::{Order, OrderId, Price, Quantity, Side};

#[test]
fn side_opposite_flips() {
    assert_eq!(Side::Buy.opposite(), Side::Sell);
    assert_eq!(Side::Sell.opposite(), Side::Buy);
}

#[test]
fn quantity_saturating_sub_stops_at_zero() {
    assert_eq!(Quantity(10).saturating_sub(Quantity(3)), Quantity(7));
    assert_eq!(Quantity(3).saturating_sub(Quantity(10)), Quantity(0));
    assert_eq!(Quantity(5).saturating_sub(Quantity(5)), Quantity(0));
}

#[test]
fn order_new_starts_unlinked() {
    let o = Order::new(OrderId(7), Side::Buy, Price(100), Quantity(5));
    assert_eq!(o.id, OrderId(7));
    assert_eq!(o.side, Side::Buy);
    assert_eq!(o.price, Price(100));
    assert_eq!(o.qty, Quantity(5));
    assert!(o.next.is_none());
    assert!(o.prev.is_none());
}

#[test]
fn empty_book_reads() {
    let book = OrderBook::new("BTC-USDT", 64);
    assert_eq!(book.symbol(), "BTC-USDT");
    assert_eq!(book.best_bid_price(), None);
    assert_eq!(book.best_ask_price(), None);
    assert_eq!(book.active_orders(), 0);
    assert_eq!(book.free_slots(), 0);
    assert_eq!(book.used_bytes(), 0);
    assert_eq!(book.capacity_bytes(), 64 * ORDER_RECORD_BYTES);
}

#[test]
fn scenario_no_cross_rests_both_sides() {
    let mut book = OrderBook::new("BTC-USDT", 16);
    let (r1, t1) = book.place_limit_order(1, Side::Sell, 50_000, 100);
    assert!(matches!(r1, Ok(Some(_))));
    assert!(t1.is_empty());
    let (r2, t2) = book.place_limit_order(2, Side::Buy, 40_000, 10);
    assert!(matches!(r2, Ok(Some(_))));
    assert!(t2.is_empty());
    assert_eq!(book.best_ask_price(), Some(Price(50_000)));
    assert_eq!(book.best_bid_price(), Some(Price(40_000)));
    assert_eq!(book.active_orders(), 2);
}

#[test]
fn scenario_multi_level_cross() {
    let mut book = OrderBook::new("BTC-USDT", 16);
    book.place_limit_order(1, Side::Sell, 50_000, 100).0.unwrap();
    book.place_limit_order(2, Side::Sell, 51_000, 50).0.unwrap();
    let (r3, trades) = book.place_limit_order(3, Side::Buy, 52_000, 120);
    assert_eq!(r3, Ok(None));
    assert_eq!(trades.len(), 2);
    assert_eq!(trades[0].maker_id, OrderId(1));
    assert_eq!(trades[0].taker_id, OrderId(3));
    assert_eq!(trades[0].price, Price(50_000));
    assert_eq!(trades[0].quantity, Quantity(100));
    assert_eq!(trades[0].maker_side, Side::Sell);
    assert_eq!(trades[1].maker_id, OrderId(2));
    assert_eq!(trades[1].price, Price(51_000));
    assert_eq!(trades[1].quantity, Quantity(20));
    // id 1 is fully gone; id 2 rests with 30 left.
    assert_eq!(book.cancel_order(1), Err(BookError::NotFound));
    assert_eq!(book.active_orders(), 1);
    assert_eq!(book.best_ask_price(), Some(Price(51_000)));
    // The 30 remaining match a further 30-lot taker exactly.
    let (r4, t4) = book.place_limit_order(4, Side::Buy, 52_000, 30);
    assert_eq!(r4, Ok(None));
    assert_eq!(t4.len(), 1);
    assert_eq!(t4[0].quantity, Quantity(30));
    assert_eq!(t4[0].maker_id, OrderId(2));
}

#[test]
fn scenario_time_priority_at_equal_price() {
    let mut book = OrderBook::new("BTC-USDT", 16);
    book.place_limit_order(1, Side::Sell, 100, 10).0.unwrap();
    book.place_limit_order(2, Side::Sell, 100, 10).0.unwrap();
    let (r3, trades) = book.place_limit_order(3, Side::Buy, 100, 10);
    assert_eq!(r3, Ok(None));
    assert_eq!(trades.len(), 1);
    assert_eq!(trades[0].maker_id, OrderId(1));
    // id 2 is untouched and still resting.
    assert_eq!(book.active_orders(), 1);
    assert_eq!(book.best_ask_price(), Some(Price(100)));
    assert!(matches!(book.cancel_order(2), Ok(OrderId(2))));
}

#[test]
fn scenario_modify_fast_path_keeps_slot_and_bytes() {
    let mut book = OrderBook::new("BTC-USDT", 16);
    book.place_limit_order(1, Side::Sell, 100, 100).0.unwrap();
    let used_before = book.used_bytes();
    let free_before = book.free_slots();
    let (r, trades) = book.modify_order(1, 100, 40);
    assert!(matches!(r, Ok(Some(_))));
    assert!(trades.is_empty());
    assert_eq!(book.used_bytes(), used_before);
    assert_eq!(book.free_slots(), free_before);
    assert_eq!(book.best_ask_price(), Some(Price(100)));
    assert_eq!(book.active_orders(), 1);
    // The reduced quantity is what a taker can now get at 100.
    let (_, t) = book.place_limit_order(2, Side::Buy, 100, 100);
    assert_eq!(t.len(), 1);
    assert_eq!(t[0].quantity, Quantity(40));
}

#[test]
fn scenario_modify_slow_path_loses_priority() {
    let mut book = OrderBook::new("BTC-USDT", 16);
    book.place_limit_order(1, Side::Sell, 100, 100).0.unwrap();
    book.place_limit_order(2, Side::Sell, 101, 100).0.unwrap();
    let (r, trades) = book.modify_order(1, 102, 100);
    assert!(matches!(r, Ok(Some(_))));
    assert!(trades.is_empty());
    assert_eq!(book.best_ask_price(), Some(Price(101)));
    assert_eq!(book.active_orders(), 2);
    // A crossing taker now meets id 2 first.
    let (_, t) = book.place_limit_order(3, Side::Buy, 102, 10);
    assert_eq!(t.len(), 1);
    assert_eq!(t[0].maker_id, OrderId(2));
}

#[test]
fn duplicate_rejection_is_a_no_op() {
    let mut book = OrderBook::new("BTC-USDT", 16);
    book.place_limit_order(1, Side::Sell, 100, 10).0.unwrap();
    let active = book.active_orders();
    let free = book.free_slots();
    let used = book.used_bytes();
    let best_ask = book.best_ask_price();
    let best_bid = book.best_bid_price();
    let (r, trades) = book.place_limit_order(1, Side::Buy, 999, 999);
    assert_eq!(r, Err(BookError::DuplicateId));
    assert!(trades.is_empty());
    assert_eq!(book.active_orders(), active);
    assert_eq!(book.free_slots(), free);
    assert_eq!(book.used_bytes(), used);
    assert_eq!(book.best_ask_price(), best_ask);
    assert_eq!(book.best_bid_price(), best_bid);
}

#[test]
fn recycling_conserves_memory() {
    let mut book = OrderBook::new("BTC-USDT", 16);
    book.place_limit_order(1, Side::Sell, 100, 10).0.unwrap();
    let used_after_first = book.used_bytes();
    let free_after_first = book.free_slots();
    assert!(matches!(book.cancel_order(1), Ok(OrderId(1))));
    assert_eq!(book.used_bytes(), used_after_first);
    assert_eq!(book.free_slots(), free_after_first + 1);
    assert_eq!(book.active_orders(), 0);
    book.place_limit_order(1, Side::Sell, 100, 10).0.unwrap();
    assert_eq!(book.used_bytes(), used_after_first);
    assert_eq!(book.free_slots(), free_after_first);
    assert_eq!(book.active_orders(), 1);
}

#[test]
fn cancel_unknown_id_not_found() {
    let mut book = OrderBook::new("BTC-USDT", 4);
    assert_eq!(book.cancel_order(42), Err(BookError::NotFound));
    let (r, trades) = book.modify_order(42, 1, 1);
    assert_eq!(r, Err(BookError::NotFound));
    assert!(trades.is_empty());
}

#[test]
fn exhausted_capacity_is_surfaced() {
    let mut book = OrderBook::new("BTC-USDT", 1);
    book.place_limit_order(1, Side::Sell, 100, 10).0.unwrap();
    let (r, trades) = book.place_limit_order(2, Side::Sell, 101, 10);
    assert_eq!(r, Err(BookError::ExhaustedCapacity));
    assert!(trades.is_empty());
    assert_eq!(book.active_orders(), 1);
    // A full fill frees the slot and the next placement reuses it.
    let (r3, t3) = book.place_limit_order(3, Side::Buy, 100, 25);
    assert!(matches!(r3, Ok(Some(_))));
    assert_eq!(t3.len(), 1);
    assert_eq!(t3[0].quantity, Quantity(10));
    assert_eq!(book.best_bid_price(), Some(Price(100)));
    assert_eq!(book.active_orders(), 1);
}

#[test]
fn modify_to_zero_quantity_cancels() {
    let mut book = OrderBook::new("BTC-USDT", 8);
    book.place_limit_order(1, Side::Buy, 90, 10).0.unwrap();
    let (r, trades) = book.modify_order(1, 90, 0);
    assert_eq!(r, Ok(None));
    assert!(trades.is_empty());
    assert_eq!(book.active_orders(), 0);
    assert_eq!(book.free_slots(), 1);
    assert_eq!(book.best_bid_price(), None);
}

#[test]
fn modify_slow_path_can_match_immediately() {
    let mut book = OrderBook::new("BTC-USDT", 8);
    book.place_limit_order(1, Side::Sell, 100, 10).0.unwrap();
    book.place_limit_order(2, Side::Buy, 90, 5).0.unwrap();
    let (r, trades) = book.modify_order(2, 100, 5);
    assert_eq!(r, Ok(None));
    assert_eq!(trades.len(), 1);
    assert_eq!(trades[0].maker_id, OrderId(1));
    assert_eq!(trades[0].taker_id, OrderId(2));
    assert_eq!(trades[0].price, Price(100));
    assert_eq!(trades[0].quantity, Quantity(5));
    assert_eq!(book.active_orders(), 1);
}

#[test]
fn execute_match_partial_fill_leaves_maker_at_head() {
    let mut book = OrderBook::new("ETH-USDT", 8);
    book.place_limit_order(1, Side::Sell, 100, 10).0.unwrap();
    let (remaining, trades) = execute_match(
        &mut book,
        OrderId(9),
        Side::Buy,
        Price(100),
        Quantity(4),
    );
    assert_eq!(remaining, Quantity(0));
    assert_eq!(trades.len(), 1);
    assert_eq!(trades[0].maker_id, OrderId(1));
    assert_eq!(trades[0].quantity, Quantity(4));
    assert_eq!(book.best_ask_price(), Some(Price(100)));
    assert_eq!(book.active_orders(), 1);
    // The remaining six lots are still there for the next taker.
    let (rem2, t2) = execute_match(&mut book, OrderId(10), Side::Buy, Price(100), Quantity(9));
    assert_eq!(rem2, Quantity(3));
    assert_eq!(t2.len(), 1);
    assert_eq!(t2[0].quantity, Quantity(6));
    assert_eq!(book.best_ask_price(), None);
    assert_eq!(book.active_orders(), 0);
    assert_eq!(book.free_slots(), 1);
}

#[test]
fn conservation_of_quantity_across_one_call() {
    let mut book = OrderBook::new("BTC-USDT", 8);
    book.place_limit_order(1, Side::Sell, 100, 7).0.unwrap();
    book.place_limit_order(2, Side::Sell, 101, 5).0.unwrap();
    let (r, trades) = book.place_limit_order(3, Side::Buy, 101, 20);
    // Remainder rests: 20 - 7 - 5 = 8.
    assert!(matches!(r, Ok(Some(_))));
    let total: u64 = trades.iter().map(|t| t.quantity.0).sum();
    assert_eq!(total, 12);
    assert_eq!(trades.len(), 2);
    assert!(trades[0].quantity.0 <= 7);
    assert!(trades[1].quantity.0 <= 5);
    // The rested remainder is the bid for exactly 8 lots.
    let (r4, t4) = book.place_limit_order(4, Side::Sell, 101, 100);
    assert!(matches!(r4, Ok(Some(_))));
    assert_eq!(t4.len(), 1);
    assert_eq!(t4[0].quantity, Quantity(8));
    assert_eq!(t4[0].maker_id, OrderId(3));
    assert_eq!(t4[0].price, Price(101));
}

#[test]
fn bids_rest_high_to_low_asks_low_to_high() {
    let mut book = OrderBook::new("BTC-USDT", 16);
    book.place_limit_order(1, Side::Buy, 95, 1).0.unwrap();
    book.place_limit_order(2, Side::Buy, 99, 1).0.unwrap();
    book.place_limit_order(3, Side::Buy, 97, 1).0.unwrap();
    assert_eq!(book.best_bid_price(), Some(Price(99)));
    book.place_limit_order(4, Side::Sell, 105, 1).0.unwrap();
    book.place_limit_order(5, Side::Sell, 102, 1).0.unwrap();
    book.place_limit_order(6, Side::Sell, 104, 1).0.unwrap();
    assert_eq!(book.best_ask_price(), Some(Price(102)));
    // Consuming the asks returns them in price order.
    let (_, t) = book.place_limit_order(7, Side::Buy, 200, 3);
    assert_eq!(t.len(), 3);
    assert_eq!(t[0].price, Price(102));
    assert_eq!(t[1].price, Price(104));
    assert_eq!(t[2].price, Price(105));
    // Consuming the bids returns them high to low.
    let (_, t2) = book.place_limit_order(8, Side::Sell, 1, 3);
    assert_eq!(t2.len(), 3);
    assert_eq!(t2[0].price, Price(99));
    assert_eq!(t2[1].price, Price(97));
    assert_eq!(t2[2].price, Price(95));
}
