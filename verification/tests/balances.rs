use cex_engine::balance::BalanceActor;
use cex_engine::errors::EngineError;
use cex_engine::symbol::split_symbol;
use cex_engine::types::{BalanceEvent, BalancePool, Side, SymbolBalance};

fn funded(user: &str, asset: &str, amount: u64) -> BalanceActor {
    let mut b = BalanceActor::new();
    b.add(user, asset, amount, BalancePool::Available);
    b
}

#[test]
fn unknown_user_is_reported() {
    let b = BalanceActor::new();
    match b.get_balance("alice", "USDT") {
        Err(EngineError::UserNotFound { user_id }) => assert_eq!(user_id, "alice"),
        other => panic!("unexpected {:?}", other),
    }
}

#[test]
fn unknown_asset_is_reported() {
    let b = funded("alice", "USDT", 10);
    match b.get_balance("alice", "BTC") {
        Err(EngineError::InvalidSymbol { symbol }) => assert_eq!(symbol, "BTC"),
        other => panic!("unexpected {:?}", other),
    }
}

#[test]
fn add_credits_and_saturates() {
    let mut b = funded("alice", "USDT", 10);
    assert_eq!(b.get_balance("alice", "USDT").unwrap(), SymbolBalance { available: 10, locked: 0 });
    b.add("alice", "USDT", u64::MAX, BalancePool::Available);
    assert_eq!(b.get_balance("alice", "USDT").unwrap().available, u64::MAX);
    b.add("alice", "USDT", 3, BalancePool::Locked);
    assert_eq!(b.get_balance("alice", "USDT").unwrap().locked, 3);
}

#[test]
fn deduct_takes_from_the_pool_it_names() {
    let mut b = funded("alice", "USDT", 10);
    assert!(b.deduct("alice", "USDT", 4, BalancePool::Available).is_ok());
    assert_eq!(b.get_balance("alice", "USDT").unwrap(), SymbolBalance { available: 6, locked: 0 });
}

#[test]
fn deduct_refuses_short_available_pool() {
    let mut b = funded("alice", "USDT", 10);
    match b.deduct("alice", "USDT", 11, BalancePool::Available) {
        Err(EngineError::InsufficientAvailableBalanced { required, available }) => {
            assert_eq!(required, 11);
            assert_eq!(available, 10);
        },
        other => panic!("unexpected {:?}", other),
    }
    assert_eq!(b.get_balance("alice", "USDT").unwrap(), SymbolBalance { available: 10, locked: 0 });
}

#[test]
fn deduct_refuses_short_locked_pool_and_opens_entries() {
    let mut b = BalanceActor::new();
    match b.deduct("bob", "BTC", 1, BalancePool::Locked) {
        Err(EngineError::InsufficientLockedBalanced { required, locked }) => {
            assert_eq!(required, 1);
            assert_eq!(locked, 0);
        },
        other => panic!("unexpected {:?}", other),
    }
    assert_eq!(b.get_balance("bob", "BTC").unwrap(), SymbolBalance { available: 0, locked: 0 });
}

#[test]
fn split_symbol_needs_exactly_one_underscore() {
    assert_eq!(split_symbol("BTC_USDT"), Some(("BTC".to_string(), "USDT".to_string())));
    assert_eq!(split_symbol("BTC_"), Some(("BTC".to_string(), "".to_string())));
    assert_eq!(split_symbol("BTCUSDT"), None);
    assert_eq!(split_symbol("A_B_C"), None);
}

#[test]
fn buy_locks_price_times_quantity_of_quote() {
    let mut b = funded("alice", "USDT", 1000);
    assert!(b.check_and_lock("alice", "BTC_USDT", Side::Buy, 100, 3).is_ok());
    assert_eq!(b.get_balance("alice", "USDT").unwrap(), SymbolBalance { available: 700, locked: 300 });
}

#[test]
fn sell_locks_quantity_of_base() {
    let mut b = funded("bob", "BTC", 5);
    assert!(b.check_and_lock("bob", "BTC_USDT", Side::Sell, 100, 2).is_ok());
    assert_eq!(b.get_balance("bob", "BTC").unwrap(), SymbolBalance { available: 3, locked: 2 });
}

#[test]
fn lock_refused_for_bad_symbol() {
    let mut b = funded("bob", "BTC", 5);
    match b.check_and_lock("bob", "BTCUSDT", Side::Sell, 100, 2) {
        Err(EngineError::InvalidSymbol { symbol }) => assert_eq!(symbol, "BTCUSDT"),
        other => panic!("unexpected {:?}", other),
    }
    assert_eq!(b.get_balance("bob", "BTC").unwrap(), SymbolBalance { available: 5, locked: 0 });
}

#[test]
fn lock_refused_for_short_funds() {
    let mut b = funded("alice", "USDT", 100);
    match b.check_and_lock("alice", "BTC_USDT", Side::Buy, 60, 2) {
        Err(EngineError::InsufficientAvailableBalanced { required, available }) => {
            assert_eq!(required, 120);
            assert_eq!(available, 100);
        },
        other => panic!("unexpected {:?}", other),
    }
}

#[test]
fn fill_event_settles_both_sides() {
    let mut b = BalanceActor::new();
    b.add("buyer", "USDT", 1000, BalancePool::Available);
    b.add("seller", "BTC", 10, BalancePool::Available);
    b.check_and_lock("buyer", "BTC_USDT", Side::Buy, 100, 2).unwrap();
    b.check_and_lock("seller", "BTC_USDT", Side::Sell, 100, 2).unwrap();
    b.handle_event(BalanceEvent::Fill {
        symbol: "BTC_USDT".to_string(),
        price: 100,
        quantity: 2,
        buy_user_id: "buyer".to_string(),
        sell_user_id: "seller".to_string(),
    });
    assert_eq!(b.get_balance("buyer", "USDT").unwrap(), SymbolBalance { available: 800, locked: 0 });
    assert_eq!(b.get_balance("buyer", "BTC").unwrap(), SymbolBalance { available: 2, locked: 0 });
    assert_eq!(b.get_balance("seller", "USDT").unwrap(), SymbolBalance { available: 200, locked: 0 });
    assert_eq!(b.get_balance("seller", "BTC").unwrap(), SymbolBalance { available: 8, locked: 0 });
}

#[test]
fn fill_event_on_bad_symbol_is_ignored() {
    let mut b = funded("buyer", "USDT", 10);
    b.handle_event(BalanceEvent::Fill {
        symbol: "BTCUSDT".to_string(),
        price: 1,
        quantity: 1,
        buy_user_id: "buyer".to_string(),
        sell_user_id: "seller".to_string(),
    });
    assert_eq!(b.get_balance("buyer", "USDT").unwrap(), SymbolBalance { available: 10, locked: 0 });
    assert!(b.get_balance("seller", "USDT").is_err());
}

#[test]
fn cancel_event_releases_locked_funds() {
    let mut b = funded("alice", "USDT", 1000);
    b.check_and_lock("alice", "BTC_USDT", Side::Buy, 100, 3).unwrap();
    b.handle_event(BalanceEvent::CancelOrder { user_id: "alice".to_string(), symbol: "USDT".to_string(), amount: 300 });
    assert_eq!(b.get_balance("alice", "USDT").unwrap(), SymbolBalance { available: 1000, locked: 0 });
}

#[test]
fn cancel_event_releases_at_most_what_is_locked() {
    let mut b = funded("alice", "USDT", 10);
    b.add("alice", "USDT", 2, BalancePool::Locked);
    b.handle_event(BalanceEvent::CancelOrder { user_id: "alice".to_string(), symbol: "USDT".to_string(), amount: 5 });
    assert_eq!(b.get_balance("alice", "USDT").unwrap(), SymbolBalance { available: 15, locked: 0 });
}

#[test]
fn cancel_event_for_unknown_asset_only_opens_the_user() {
    let mut b = BalanceActor::new();
    b.handle_event(BalanceEvent::CancelOrder { user_id: "carol".to_string(), symbol: "USDT".to_string(), amount: 5 });
    match b.get_balance("carol", "USDT") {
        Err(EngineError::InvalidSymbol { .. }) => {},
        other => panic!("unexpected {:?}", other),
    }
}

#[test]
fn law_release_undoes_lock_on_values() {
    let mut b = funded("alice", "USDT", 500);
    b.add("alice", "USDT", 7, BalancePool::Locked);
    let before = b.get_balance("alice", "USDT").unwrap();
    b.check_and_lock("alice", "BTC_USDT", Side::Buy, 20, 10).unwrap();
    b.handle_event(BalanceEvent::CancelOrder { user_id: "alice".to_string(), symbol: "USDT".to_string(), amount: 200 });
    assert_eq!(b.get_balance("alice", "USDT").unwrap(), before);
}

#[test]
fn law_lock_keeps_holdings_on_values() {
    let mut b = funded("bob", "BTC", 9);
    b.check_and_lock("bob", "BTC_USDT", Side::Sell, 1, 4).unwrap();
    let after = b.get_balance("bob", "BTC").unwrap();
    assert_eq!(after.available + after.locked, 9);
    assert_eq!(after.locked, 4);
}

#[test]
fn law_add_undoes_deduct_on_values() {
    let mut b = funded("bob", "BTC", 9);
    b.add("bob", "BTC", 3, BalancePool::Locked);
    let before = b.get_balance("bob", "BTC").unwrap();
    b.deduct("bob", "BTC", 2, BalancePool::Locked).unwrap();
    b.add("bob", "BTC", 2, BalancePool::Locked);
    assert_eq!(b.get_balance("bob", "BTC").unwrap(), before);
}

#[test]
fn law_settlement_conserves_on_values() {
    let mut b = BalanceActor::new();
    b.add("buyer", "USDT", 1000, BalancePool::Available);
    b.add("buyer", "BTC", 1, BalancePool::Available);
    b.add("seller", "BTC", 10, BalancePool::Available);
    b.add("seller", "USDT", 5, BalancePool::Available);
    b.check_and_lock("buyer", "BTC_USDT", Side::Buy, 30, 4).unwrap();
    b.check_and_lock("seller", "BTC_USDT", Side::Sell, 30, 4).unwrap();
    let hold = |b: &BalanceActor, u: &str, s: &str| {
        let x = b.get_balance(u, s).unwrap();
        x.available + x.locked
    };
    let base_before = hold(&b, "buyer", "BTC") + hold(&b, "seller", "BTC");
    let quote_before = hold(&b, "buyer", "USDT") + hold(&b, "seller", "USDT");
    b.handle_event(BalanceEvent::Fill {
        symbol: "BTC_USDT".to_string(),
        price: 30,
        quantity: 4,
        buy_user_id: "buyer".to_string(),
        sell_user_id: "seller".to_string(),
    });
    assert_eq!(hold(&b, "buyer", "BTC") + hold(&b, "seller", "BTC"), base_before);
    assert_eq!(hold(&b, "buyer", "USDT") + hold(&b, "seller", "USDT"), quote_before);
}

#[test]
fn law_events_conserve_funds_on_values() {
    let mut b = BalanceActor::new();
    b.add("alice", "USDT", 1000, BalancePool::Available);
    b.add("alice", "BTC", 5, BalancePool::Available);
    b.add("bob", "BTC", 3, BalancePool::Available);
    b.check_and_lock("alice", "BTC_USDT", Side::Buy, 50, 4).unwrap();
    b.check_and_lock("alice", "BTC_USDT", Side::Sell, 50, 4).unwrap();
    let total = |b: &BalanceActor, s: &str| {
        ["alice", "bob"].iter().map(|u| match b.get_balance(u, s) {
            Ok(x) => x.available + x.locked,
            Err(_) => 0,
        }).sum::<u64>()
    };
    let btc = total(&b, "BTC");
    let usdt = total(&b, "USDT");
    // one user trading with itself
    b.handle_event(BalanceEvent::Fill {
        symbol: "BTC_USDT".to_string(),
        price: 50,
        quantity: 4,
        buy_user_id: "alice".to_string(),
        sell_user_id: "alice".to_string(),
    });
    assert_eq!(total(&b, "BTC"), btc);
    assert_eq!(total(&b, "USDT"), usdt);
    assert_eq!(b.get_balance("alice", "BTC").unwrap(), SymbolBalance { available: 5, locked: 0 });
    assert_eq!(b.get_balance("alice", "USDT").unwrap(), SymbolBalance { available: 1000, locked: 0 });
    b.check_and_lock("bob", "BTC_USDT", Side::Sell, 50, 2).unwrap();
    b.handle_event(BalanceEvent::CancelOrder { user_id: "bob".to_string(), symbol: "BTC".to_string(), amount: 2 });
    assert_eq!(total(&b, "BTC"), btc);
    assert_eq!(b.get_balance("bob", "BTC").unwrap(), SymbolBalance { available: 3, locked: 0 });
}

#[test]
fn law_events_conserve_funds_when_base_is_quote() {
    let mut b = BalanceActor::new();
    b.add("carol", "X", 100, BalancePool::Available);
    b.add("dave", "X", 100, BalancePool::Available);
    b.check_and_lock("carol", "X_X", Side::Buy, 3, 4).unwrap();
    b.check_and_lock("dave", "X_X", Side::Sell, 3, 4).unwrap();
    b.check_and_lock("carol", "X_X", Side::Sell, 3, 4).unwrap();
    let total = |b: &BalanceActor| {
        ["carol", "dave"].iter().map(|u| {
            let x = b.get_balance(u, "X").unwrap();
            x.available + x.locked
        }).sum::<u64>()
    };
    let before = total(&b);
    // two users on a symbol whose base is its quote
    b.handle_event(BalanceEvent::Fill {
        symbol: "X_X".to_string(),
        price: 3,
        quantity: 4,
        buy_user_id: "carol".to_string(),
        sell_user_id: "dave".to_string(),
    });
    assert_eq!(total(&b), before);
    // one user with itself, its lock covering both debits (12 + 4 of the 16 it locked)
    assert_eq!(b.get_balance("carol", "X").unwrap().locked, 4);
    b.check_and_lock("carol", "X_X", Side::Buy, 3, 4).unwrap();
    b.handle_event(BalanceEvent::Fill {
        symbol: "X_X".to_string(),
        price: 3,
        quantity: 4,
        buy_user_id: "carol".to_string(),
        sell_user_id: "carol".to_string(),
    });
    assert_eq!(total(&b), before);
}

#[test]
fn law_locking_keeps_every_holding_on_values() {
    let mut b = BalanceActor::new();
    b.add("erin", "USDT", 50, BalancePool::Available);
    b.add("erin", "BTC", 2, BalancePool::Available);
    let usdt = b.get_balance("erin", "USDT").unwrap();
    let btc = b.get_balance("erin", "BTC").unwrap();
    b.check_and_lock("erin", "BTC_USDT", Side::Buy, 10, 3).unwrap();
    assert!(b.check_and_lock("erin", "BTC_USDT", Side::Sell, 10, 9).is_err());
    assert!(b.check_and_lock("erin", "BTCUSDT", Side::Sell, 10, 1).is_err());
    let u2 = b.get_balance("erin", "USDT").unwrap();
    let b2 = b.get_balance("erin", "BTC").unwrap();
    assert_eq!(u2.available + u2.locked, usdt.available + usdt.locked);
    assert_eq!(u2.locked, 30);
    assert_eq!(b2.available + b2.locked, btc.available + btc.locked);
}
