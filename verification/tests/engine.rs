use cex_engine::engine_db::EngineDB;
use cex_engine::routing::route;
use cex_engine::symbol_actor::{PlaceRefusal, SymbolAction, SymbolActor, fill_events};
use cex_engine::types::{BalanceEvent, EngineCommand, Fill, Order, OrderStatus, OrderType, Side};

fn fill(maker: &str, qty: u64) -> Fill {
    Fill {
        symbol: "BTC_USDT".to_string(),
        trade_id: "T".to_string(),
        buy_user_id: "b".to_string(),
        sell_user_id: "s".to_string(),
        maker_order_id: maker.to_string(),
        taker_order_id: "taker".to_string(),
        price: 10,
        quantity: qty,
    }
}

fn open_order(id: &str, quantity: u64) -> Order {
    Order {
        symbol: "BTC_USDT".to_string(),
        user_id: "u".to_string(),
        order_id: id.to_string(),
        side: Side::Sell,
        order_type: OrderType::Limit,
        price: 10,
        quantity,
        filled_qty: 0,
        filled: Vec::new(),
        timestamp: 0,
        status: OrderStatus::Open,
    }
}

#[test]
fn new_engine_is_empty() {
    let db = EngineDB::new();
    assert!(db.orders.is_empty());
    assert!(db.orderbooks.is_empty());
}

#[test]
fn fill_order_records_fills_on_makers() {
    let mut db = EngineDB::new();
    db.orders.insert("m1".to_string(), open_order("m1", 5));
    db.orders.insert("m2".to_string(), open_order("m2", 5));
    db.fill_order(vec![fill("m1", 2), fill("m2", 5), fill("unknown", 1), fill("m1", 1)]);
    let m1 = db.orders.get("m1").unwrap();
    assert_eq!(m1.filled_qty, 3);
    assert_eq!(m1.filled.len(), 2);
    assert!(matches!(m1.status, OrderStatus::PartiallyFilled));
    let m2 = db.orders.get("m2").unwrap();
    assert_eq!(m2.filled_qty, 5);
    assert!(matches!(m2.status, OrderStatus::Filled));
    assert_eq!(db.orders.len(), 2);
}

#[test]
fn placed_orders_get_distinct_ulids_and_the_clock_time() {
    let mut actor = SymbolActor::new("BTC_USDT".to_string());
    let (a, _) = actor
        .place_order("BTC_USDT".to_string(), "u".to_string(), Side::Buy, OrderType::Limit, 1, 1)
        .expect("new id");
    let (b, _) = actor
        .place_order("BTC_USDT".to_string(), "u".to_string(), Side::Buy, OrderType::Limit, 1, 1)
        .expect("new id");
    assert_eq!(a.order_id.len(), 26);
    assert!(a.order_id.chars().all(|c| c.is_ascii_digit() || (c.is_ascii_uppercase() && !"ILOU".contains(c))));
    assert_ne!(a.order_id, b.order_id);
    assert!(a.timestamp > 1_600_000_000);
}

#[test]
fn symbol_actor_places_matches_and_cancels() {
    let mut actor = SymbolActor::new("BTC_USDT".to_string());
    let (rest, fills) = actor
        .place_order("BTC_USDT".to_string(), "seller".to_string(), Side::Sell, OrderType::Limit, 100, 5)
        .expect("new id");
    assert!(fills.is_empty());
    assert_eq!(rest.order_id.len(), 26);
    assert!(rest.timestamp > 1_600_000_000);
    assert!(matches!(rest.status, OrderStatus::Open));
    let (taker, fills) = actor
        .place_order("BTC_USDT".to_string(), "buyer".to_string(), Side::Buy, OrderType::Market, 0, 2)
        .expect("new id");
    assert_eq!(fills.len(), 1);
    assert_eq!(fills[0].maker_order_id, rest.order_id);
    assert_eq!(fills[0].taker_order_id, taker.order_id);
    assert!(matches!(taker.status, OrderStatus::Filled));
    let events = fill_events(&fills);
    assert_eq!(events.len(), 1);
    match &events[0] {
        BalanceEvent::Fill { symbol, price, quantity, buy_user_id, sell_user_id } => {
            assert_eq!(symbol, "BTC_USDT");
            assert_eq!(*price, 100);
            assert_eq!(*quantity, 2);
            assert_eq!(buy_user_id, "buyer");
            assert_eq!(sell_user_id, "seller");
        },
        other => panic!("unexpected {:?}", other),
    }
    let (bids, asks) = actor.get_order_book();
    assert!(bids.is_empty());
    assert_eq!(asks, vec![(100, 3)]);
    match actor.cancel_order("BTC_USDT".to_string(), &rest.order_id) {
        Some(BalanceEvent::CancelOrder { user_id, symbol, amount }) => {
            assert_eq!(user_id, "seller");
            assert_eq!(symbol, "BTC_USDT");
            assert_eq!(amount, 3);
        },
        other => panic!("unexpected {:?}", other),
    }
    assert!(actor.cancel_order("BTC_USDT".to_string(), &rest.order_id).is_none());
    let (_, asks) = actor.get_order_book();
    assert!(asks.is_empty());
}

#[test]
fn cancelling_a_buy_returns_price_times_quantity() {
    let mut actor = SymbolActor::new("ETH_USDT".to_string());
    let (o, _) = actor
        .place_order_with(
            "ETH_USDT".to_string(),
            "alice".to_string(),
            Side::Buy,
            OrderType::Limit,
            25,
            4,
            "order-1".to_string(),
            7,
        )
        .expect("the remainder fits");
    assert_eq!(o.timestamp, 7);
    match actor.cancel_order("ETH_USDT".to_string(), "order-1") {
        Some(BalanceEvent::CancelOrder { amount, .. }) => assert_eq!(amount, 100),
        other => panic!("unexpected {:?}", other),
    }
}

#[test]
fn law_market_order_never_rests_on_values() {
    let mut actor = SymbolActor::new("BTC_USDT".to_string());
    let (o, fills) = actor.place_order_with(
        "BTC_USDT".to_string(),
        "buyer".to_string(),
        Side::Buy,
        OrderType::Market,
        0,
        3,
        "m".to_string(),
        1,
    )
    .expect("nothing rests");
    assert!(fills.is_empty());
    assert!(matches!(o.status, OrderStatus::Cancelled));
    assert!(actor.orderbook().get_order("m").is_none());
}

#[test]
fn place_order_refuses_a_remainder_its_level_cannot_hold() {
    let mut actor = SymbolActor::new("BTC_USDT".to_string());
    actor
        .place_order("BTC_USDT".to_string(), "s1".to_string(), Side::Sell, OrderType::Limit, 100, u64::MAX)
        .expect("new id");
    match actor.place_order("BTC_USDT".to_string(), "s2".to_string(), Side::Sell, OrderType::Limit, 100, 1) {
        Err(PlaceRefusal::LevelFull(o, fills)) => {
            assert!(fills.is_empty());
            assert_eq!(o.filled_qty, 0);
            assert_eq!(o.quantity, 1);
            assert_eq!(o.order_id.len(), 26);
            assert!(o.order_id.chars().all(|c| c.is_ascii_digit() || (c.is_ascii_uppercase() && !"ILOU".contains(c))));
        },
        other => panic!("unexpected {:?}", other),
    }
    let (bids, asks) = actor.get_order_book();
    assert!(bids.is_empty());
    assert_eq!(asks, vec![(100, u64::MAX)]);
}

#[test]
fn handle_command_places_reports_cancels_and_stops() {
    let mut actor = SymbolActor::new("ETH_USDT".to_string());
    let placed = actor.handle_command(EngineCommand::PlaceOrder {
        symbol: "ETH_USDT".to_string(),
        user_id: "u1".to_string(),
        side: Side::Buy,
        order_type: OrderType::Limit,
        price: 7,
        quantity: 3,
    });
    let id = match placed {
        SymbolAction::Placed(Ok((o, fills))) => {
            assert!(fills.is_empty());
            o.order_id
        },
        other => panic!("unexpected {:?}", other),
    };
    match actor.handle_command(EngineCommand::GetOrderBook { symbol: "ETH_USDT".to_string() }) {
        SymbolAction::Depth(symbol, bids, asks) => {
            assert_eq!(symbol, "ETH_USDT");
            assert_eq!(bids, vec![(7, 3)]);
            assert!(asks.is_empty());
        },
        other => panic!("unexpected {:?}", other),
    }
    match actor.handle_command(EngineCommand::CancelOrder { symbol: "ETH_USDT".to_string(), order_id: id.clone() }) {
        SymbolAction::Cancelled(order_id, BalanceEvent::CancelOrder { user_id, symbol, amount }) => {
            assert_eq!(order_id, id);
            assert_eq!(user_id, "u1");
            assert_eq!(symbol, "ETH_USDT");
            assert_eq!(amount, 21);
        },
        other => panic!("unexpected {:?}", other),
    }
    assert!(matches!(
        actor.handle_command(EngineCommand::CancelOrder { symbol: "ETH_USDT".to_string(), order_id: id }),
        SymbolAction::Stop
    ));
}

#[test]
fn place_order_with_refuses_a_remainder_its_level_cannot_hold() {
    let mut actor = SymbolActor::new("BTC_USDT".to_string());
    actor
        .place_order_with("BTC_USDT".to_string(), "b1".to_string(), Side::Buy, OrderType::Limit, 50, u64::MAX, "full".to_string(), 1)
        .expect("the level is empty");
    match actor.place_order_with("BTC_USDT".to_string(), "b2".to_string(), Side::Buy, OrderType::Limit, 50, 2, "more".to_string(), 2) {
        Err(PlaceRefusal::LevelFull(o, fills)) => {
            assert!(fills.is_empty());
            assert_eq!(o.order_id, "more");
            assert_eq!(o.timestamp, 2);
        },
        other => panic!("unexpected {:?}", other),
    }
    assert!(actor.orderbook().get_order("more").is_none());
}

#[test]
fn placements_are_locked_first_and_other_commands_go_straight_to_the_actor() {
    let place = EngineCommand::PlaceOrder {
        symbol: "SOL_USDT".to_string(),
        user_id: "u".to_string(),
        side: Side::Sell,
        order_type: OrderType::Market,
        price: 0,
        quantity: 1,
    };
    let r = route(&place);
    assert_eq!(r.symbol, "SOL_USDT");
    assert!(r.lock_first);
    let r = route(&EngineCommand::CancelOrder { symbol: "ETH_USDT".to_string(), order_id: "x".to_string() });
    assert_eq!(r.symbol, "ETH_USDT");
    assert!(!r.lock_first);
    let r = route(&EngineCommand::GetOrderBook { symbol: "BTC_USDT".to_string() });
    assert_eq!(r.symbol, "BTC_USDT");
    assert!(!r.lock_first);
}
