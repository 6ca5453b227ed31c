use cex_engine::order_book::OrderBook;
use cex_engine::types::{Order, OrderStatus, OrderType, RestingOrder, Side};

fn resting(id: &str, user: &str, side: Side, price: u64, qty: u64) -> RestingOrder {
    RestingOrder {
        symbol: "BTC_USDT".to_string(),
        order_id: id.to_string(),
        user_id: user.to_string(),
        side,
        price,
        qty,
        timestamp: 1,
    }
}

fn incoming(id: &str, user: &str, side: Side, order_type: OrderType, price: u64, quantity: u64) -> Order {
    Order {
        symbol: "BTC_USDT".to_string(),
        user_id: user.to_string(),
        order_id: id.to_string(),
        side,
        order_type,
        price,
        quantity,
        filled_qty: 0,
        filled: Vec::new(),
        timestamp: 2,
        status: OrderStatus::Open,
    }
}

#[test]
fn new_book_has_no_depth() {
    let book = OrderBook::new();
    let (bids, asks) = book.get_depth();
    assert!(bids.is_empty());
    assert!(asks.is_empty());
}

#[test]
fn depth_lists_bids_high_first_and_asks_low_first() {
    let mut book = OrderBook::new();
    book.add_resting_order(resting("b1", "u1", Side::Buy, 100, 5));
    book.add_resting_order(resting("b2", "u2", Side::Buy, 102, 3));
    book.add_resting_order(resting("b3", "u3", Side::Buy, 100, 4));
    book.add_resting_order(resting("a1", "u4", Side::Sell, 110, 2));
    book.add_resting_order(resting("a2", "u5", Side::Sell, 105, 7));
    let (bids, asks) = book.get_depth();
    assert_eq!(bids, vec![(102, 3), (100, 9)]);
    assert_eq!(asks, vec![(105, 7), (110, 2)]);
    assert_eq!(book.level_total(Side::Buy, 100), 9);
    assert_eq!(book.level_total(Side::Sell, 100), 0);
}

#[test]
fn depth_is_capped_at_fifty_levels() {
    let mut book = OrderBook::new();
    for i in 0..60u64 {
        book.add_resting_order(resting(&format!("b{}", i), "u", Side::Buy, 1000 + i, 1));
        book.add_resting_order(resting(&format!("a{}", i), "u", Side::Sell, 2000 + i, 1));
    }
    let (bids, asks) = book.get_depth();
    assert_eq!(bids.len(), 50);
    assert_eq!(asks.len(), 50);
    assert_eq!(bids[0], (1059, 1));
    assert_eq!(bids[49], (1010, 1));
    assert_eq!(asks[0], (2000, 1));
    assert_eq!(asks[49], (2049, 1));
}

#[test]
fn remove_order_relinks_neighbours() {
    let mut book = OrderBook::new();
    book.add_resting_order(resting("x", "u1", Side::Sell, 100, 1));
    book.add_resting_order(resting("y", "u2", Side::Sell, 100, 2));
    book.add_resting_order(resting("z", "u3", Side::Sell, 100, 3));
    let node = book.remove_order("y").expect("y rests");
    assert_eq!(node.order.qty, 2);
    assert_eq!(node.prev_node.as_deref(), Some("x"));
    assert_eq!(node.next_node.as_deref(), Some("z"));
    assert_eq!(book.level_total(Side::Sell, 100), 4);
    assert!(book.get_order("y").is_none());
    assert!(book.remove_order("y").is_none());
    let last = book.remove_order("z").expect("z rests");
    assert_eq!(last.prev_node.as_deref(), Some("x"));
    assert_eq!(last.next_node, None);
    let first = book.remove_order("x").expect("x rests");
    assert_eq!(first.prev_node, None);
    assert_eq!(first.next_node, None);
    let (_, asks) = book.get_depth();
    assert!(asks.is_empty());
}

#[test]
fn remove_unknown_order_is_none() {
    let mut book = OrderBook::new();
    assert!(book.remove_order("nothing").is_none());
}

#[test]
fn limit_buy_trades_at_maker_prices_and_rests_remainder() {
    let mut book = OrderBook::new();
    book.add_resting_order(resting("a1", "seller1", Side::Sell, 100, 3));
    book.add_resting_order(resting("a2", "seller2", Side::Sell, 101, 4));
    book.add_resting_order(resting("a3", "seller3", Side::Sell, 105, 4));
    let mut order = incoming("t1", "buyer", Side::Buy, OrderType::Limit, 102, 10);
    let fills = book.match_order(&mut order);
    assert_eq!(fills.len(), 2);
    assert_eq!(fills[0].price, 100);
    assert_eq!(fills[0].quantity, 3);
    assert_eq!(fills[0].maker_order_id, "a1");
    assert_eq!(fills[0].taker_order_id, "t1");
    assert_eq!(fills[0].buy_user_id, "buyer");
    assert_eq!(fills[0].sell_user_id, "seller1");
    assert_eq!(fills[0].trade_id.len(), 26);
    assert_eq!(fills[1].price, 101);
    assert_eq!(fills[1].quantity, 4);
    assert_eq!(order.filled_qty, 7);
    assert_eq!(order.filled.len(), 2);
    assert!(matches!(order.status, OrderStatus::PartiallyFilled));
    let (bids, asks) = book.get_depth();
    assert_eq!(bids, vec![(102, 3)]);
    assert_eq!(asks, vec![(105, 4)]);
    assert_eq!(book.get_order("t1").expect("remainder rests").qty, 3);
}

#[test]
fn limit_sell_fills_completely() {
    let mut book = OrderBook::new();
    book.add_resting_order(resting("b1", "buyer1", Side::Buy, 99, 5));
    book.add_resting_order(resting("b2", "buyer2", Side::Buy, 98, 5));
    let mut order = incoming("t2", "seller", Side::Sell, OrderType::Limit, 98, 4);
    let fills = book.match_order(&mut order);
    assert_eq!(fills.len(), 1);
    assert_eq!(fills[0].price, 99);
    assert_eq!(fills[0].buy_user_id, "buyer1");
    assert_eq!(fills[0].sell_user_id, "seller");
    assert_eq!(order.filled_qty, 4);
    assert!(matches!(order.status, OrderStatus::Filled));
    assert!(book.get_order("t2").is_none());
    assert_eq!(book.get_order("b1").expect("b1 rests").qty, 1);
    assert_eq!(book.level_total(Side::Buy, 99), 1);
}

#[test]
fn limit_that_does_not_cross_rests_untouched() {
    let mut book = OrderBook::new();
    book.add_resting_order(resting("a1", "s", Side::Sell, 110, 5));
    let mut order = incoming("t3", "b", Side::Buy, OrderType::Limit, 100, 2);
    let fills = book.match_order(&mut order);
    assert!(fills.is_empty());
    assert_eq!(order.filled_qty, 0);
    assert!(matches!(order.status, OrderStatus::Open));
    assert_eq!(book.level_total(Side::Buy, 100), 2);
}

#[test]
fn market_order_is_cancelled_when_liquidity_runs_out() {
    let mut book = OrderBook::new();
    book.add_resting_order(resting("a1", "s", Side::Sell, 500, 2));
    let mut order = incoming("t4", "b", Side::Buy, OrderType::Market, 0, 5);
    let fills = book.match_order(&mut order);
    assert_eq!(fills.len(), 1);
    assert_eq!(fills[0].price, 500);
    assert_eq!(order.filled_qty, 2);
    assert!(matches!(order.status, OrderStatus::Cancelled));
    assert!(book.get_order("t4").is_none());
    let (bids, asks) = book.get_depth();
    assert!(bids.is_empty());
    assert!(asks.is_empty());
}

#[test]
fn market_order_on_empty_book_is_cancelled() {
    let mut book = OrderBook::new();
    let mut order = incoming("t5", "b", Side::Sell, OrderType::Market, 0, 5);
    let fills = book.match_order(&mut order);
    assert!(fills.is_empty());
    assert!(matches!(order.status, OrderStatus::Cancelled));
}

#[test]
fn matching_within_a_level_takes_the_oldest_order_first() {
    let mut book = OrderBook::new();
    book.add_resting_order(resting("first", "s1", Side::Sell, 100, 2));
    book.add_resting_order(resting("second", "s2", Side::Sell, 100, 2));
    let mut order = incoming("t6", "b", Side::Buy, OrderType::Limit, 100, 1);
    let fills = book.match_order(&mut order);
    assert_eq!(fills.len(), 1);
    assert_eq!(fills[0].maker_order_id, "first");
    assert_eq!(book.get_order("first").expect("first rests").qty, 1);
}

#[test]
fn matching_stops_at_a_level_whose_front_order_was_taken_out() {
    let mut book = OrderBook::new();
    book.add_resting_order(resting("first", "s1", Side::Sell, 100, 2));
    book.add_resting_order(resting("second", "s2", Side::Sell, 100, 2));
    let mut order = incoming("t7", "b", Side::Buy, OrderType::Limit, 100, 3);
    let fills = book.match_order(&mut order);
    // the first order fills completely and leaves; the level no longer records its front
    assert_eq!(fills.len(), 1);
    assert_eq!(fills[0].maker_order_id, "first");
    assert_eq!(order.filled_qty, 2);
    assert!(book.get_order("second").is_some());
    assert_eq!(book.get_order("t7").expect("remainder rests").qty, 1);
}

#[test]
fn zero_quantity_resting_order_trades_nothing_and_leaves() {
    let mut book = OrderBook::new();
    book.add_resting_order(resting("empty", "s", Side::Sell, 100, 0));
    let mut order = incoming("t8", "b", Side::Buy, OrderType::Market, 0, 1);
    let fills = book.match_order(&mut order);
    assert_eq!(fills.len(), 1);
    assert_eq!(fills[0].quantity, 0);
    assert!(book.get_order("empty").is_none());
    assert!(matches!(order.status, OrderStatus::Cancelled));
}

#[test]
fn law_remove_undoes_add_on_values() {
    let mut book = OrderBook::new();
    book.add_resting_order(resting("a", "u", Side::Buy, 100, 5));
    let before = book.get_depth();
    book.add_resting_order(resting("b", "u", Side::Buy, 100, 7));
    book.add_resting_order(resting("c", "u", Side::Buy, 90, 1));
    book.remove_order("c");
    book.remove_order("b");
    assert_eq!(book.get_depth(), before);
    assert!(book.get_order("b").is_none());
    assert_eq!(book.get_order("a").expect("a rests").qty, 5);
}

#[test]
fn law_matching_conserves_quantity_on_values() {
    let mut book = OrderBook::new();
    book.add_resting_order(resting("a1", "s", Side::Sell, 100, 3));
    book.add_resting_order(resting("a2", "s", Side::Sell, 103, 3));
    let mut order = incoming("t9", "b", Side::Buy, OrderType::Limit, 103, 5);
    let fills = book.match_order(&mut order);
    let traded: u64 = fills.iter().map(|f| f.quantity).sum();
    assert_eq!(order.filled_qty, traded);
    assert!(order.filled_qty <= order.quantity);
    assert!(fills.iter().all(|f| f.price <= 103));
    assert_eq!(book.level_total(Side::Sell, 103), 1);
}

#[test]
fn law_matching_leaves_own_side_on_values() {
    let mut book = OrderBook::new();
    book.add_resting_order(resting("b1", "x", Side::Buy, 90, 4));
    book.add_resting_order(resting("b2", "y", Side::Buy, 100, 6));
    book.add_resting_order(resting("a1", "z", Side::Sell, 100, 2));
    let mut order = incoming("t10", "w", Side::Buy, OrderType::Limit, 100, 5);
    book.match_order(&mut order);
    assert_eq!(order.filled_qty, 2);
    assert_eq!(book.level_total(Side::Buy, 90), 4);
    assert_eq!(book.level_total(Side::Buy, 100), 6 + 3);
}

#[test]
fn law_removal_keeps_time_priority_on_values() {
    let mut book = OrderBook::new();
    book.add_resting_order(resting("p", "s1", Side::Sell, 100, 1));
    book.add_resting_order(resting("q", "s2", Side::Sell, 100, 1));
    book.add_resting_order(resting("r", "s3", Side::Sell, 100, 1));
    book.remove_order("q");
    let mut order = incoming("t11", "b", Side::Buy, OrderType::Limit, 100, 1);
    let fills = book.match_order(&mut order);
    assert_eq!(fills.len(), 1);
    assert_eq!(fills[0].maker_order_id, "p");
    assert!(book.get_order("r").is_some());
}

#[test]
fn law_matching_takes_from_makers_on_values() {
    let mut book = OrderBook::new();
    book.add_resting_order(resting("m1", "s1", Side::Sell, 100, 2));
    book.add_resting_order(resting("m2", "s2", Side::Sell, 101, 5));
    book.add_resting_order(resting("m3", "s3", Side::Sell, 102, 5));
    book.add_resting_order(resting("bid", "b0", Side::Buy, 50, 5));
    let mut order = incoming("t12", "b", Side::Buy, OrderType::Market, 0, 4);
    let fills = book.match_order(&mut order);
    assert_eq!(fills.len(), 2);
    assert_ne!(fills[0].maker_order_id, fills[1].maker_order_id);
    assert!(book.get_order("m1").is_none());
    assert_eq!(book.get_order("m2").expect("m2 rests").qty, 3);
    assert_eq!(book.get_order("m3").expect("m3 rests").qty, 5);
    assert_eq!(book.get_order("bid").expect("bid rests").qty, 5);
}

#[test]
fn law_matching_walks_the_book_on_values() {
    let mut book = OrderBook::new();
    book.add_resting_order(resting("b1", "x", Side::Buy, 97, 1));
    book.add_resting_order(resting("b2", "y", Side::Buy, 99, 1));
    book.add_resting_order(resting("b3", "z", Side::Buy, 98, 1));
    let mut order = incoming("t13", "s", Side::Sell, OrderType::Market, 0, 3);
    let fills = book.match_order(&mut order);
    let prices: Vec<u64> = fills.iter().map(|f| f.price).collect();
    assert_eq!(prices, vec![99, 98, 97]);
}

#[test]
fn law_matching_keeps_book_uncrossed_on_values() {
    let mut book = OrderBook::new();
    book.add_resting_order(resting("a1", "s1", Side::Sell, 101, 2));
    book.add_resting_order(resting("a2", "s2", Side::Sell, 103, 2));
    book.add_resting_order(resting("b1", "b1", Side::Buy, 99, 2));
    let mut order = incoming("t14", "b", Side::Buy, OrderType::Limit, 102, 5);
    book.match_order(&mut order);
    let (bids, asks) = book.get_depth();
    assert_eq!(bids, vec![(102, 3), (99, 2)]);
    assert_eq!(asks, vec![(103, 2)]);
    assert!(bids[0].0 < asks[0].0);
}

#[test]
fn remainder_rests_across_a_level_whose_front_order_was_taken_out() {
    let mut book = OrderBook::new();
    book.add_resting_order(resting("a1", "s1", Side::Sell, 100, 2));
    book.add_resting_order(resting("a2", "s2", Side::Sell, 100, 2));
    let mut order = incoming("t15", "b", Side::Buy, OrderType::Limit, 100, 4);
    book.match_order(&mut order);
    let (bids, asks) = book.get_depth();
    assert_eq!(bids, vec![(100, 2)]);
    assert_eq!(asks, vec![(100, 2)]);
}

#[test]
fn try_match_refuses_a_remainder_its_level_cannot_hold() {
    let mut book = OrderBook::new();
    book.add_resting_order(resting("a1", "s1", Side::Sell, 100, u64::MAX));
    book.add_resting_order(resting("b1", "b1", Side::Buy, 90, 3));
    let mut order = incoming("t16", "s2", Side::Sell, OrderType::Limit, 100, 1);
    match book.try_match_order(&mut order) {
        Err(fills) => assert!(fills.is_empty()),
        Ok(_) => panic!("the level is full"),
    }
    assert!(book.get_order("t16").is_none());
    assert_eq!(book.level_total(Side::Sell, 100), u64::MAX);
    let mut order = incoming("t17", "s3", Side::Sell, OrderType::Limit, 90, 5);
    match book.try_match_order(&mut order) {
        Ok(fills) => {
            assert_eq!(fills.len(), 1);
            assert_eq!(fills[0].quantity, 3);
        },
        Err(_) => panic!("the remainder fits"),
    }
    assert_eq!(order.filled_qty, 3);
    assert!(matches!(order.status, OrderStatus::PartiallyFilled));
    assert_eq!(book.get_order("t17").expect("remainder rests").qty, 2);
}
