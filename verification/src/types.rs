//! Plain data types shared by the order book, the balance book and the actors.

use vstd::prelude::*;

verus! {

/// The side of an order: buying or selling the base asset of a symbol.
#[derive(Debug, Clone, Copy, PartialEq, Eq, Structural)]
pub enum Side {
    Buy,
    Sell,
}

/// How an incoming order is priced: up to a limit, or at whatever the book offers.
#[derive(Debug, Clone, Copy, PartialEq, Eq, Structural)]
pub enum OrderType {
    Limit,
    Market,
}

/// Life-cycle state of an order.
#[derive(Debug, Clone, Copy, PartialEq, Eq, Structural)]
pub enum OrderStatus {
    PartiallyFilled,
    Open,
    Cancelled,
    Filled,
}

/// The funds a user holds in one asset: free to use, and reserved by open orders.
#[derive(Debug, Clone, Copy, PartialEq, Eq, Structural)]
pub struct SymbolBalance {
    pub available: u64,
    pub locked: u64,
}

/// Which of the two pools of a [`SymbolBalance`] an operation touches.
#[derive(Debug, Clone, Copy, PartialEq, Eq, Structural)]
pub enum BalancePool {
    Available,
    Locked,
}

/// One trade between an incoming (taker) order and a resting (maker) order.
#[derive(Debug)]
pub struct Fill {
    pub symbol: String,
    pub trade_id: String,
    pub buy_user_id: String,
    pub sell_user_id: String,
    pub maker_order_id: String,
    pub taker_order_id: String,
    pub price: u64,
    pub quantity: u64,
}

/// The terms of a trade: everything a fill records but its trade id.
pub struct TradeTerms {
    pub symbol: Seq<char>,
    pub buy_user_id: Seq<char>,
    pub sell_user_id: Seq<char>,
    pub maker_order_id: Seq<char>,
    pub taker_order_id: Seq<char>,
    pub price: u64,
    pub quantity: u64,
}

impl Fill {
    /// The terms of the trade this fill records.
    pub open spec fn terms(self) -> TradeTerms {
        TradeTerms {
            symbol: self.symbol@,
            buy_user_id: self.buy_user_id@,
            sell_user_id: self.sell_user_id@,
            maker_order_id: self.maker_order_id@,
            taker_order_id: self.taker_order_id@,
            price: self.price,
            quantity: self.quantity,
        }
    }
}

impl Clone for Fill {
    fn clone(&self) -> (res: Self)
        ensures
            res == *self,
    {
        Fill {
            symbol: self.symbol.clone(),
            trade_id: self.trade_id.clone(),
            buy_user_id: self.buy_user_id.clone(),
            sell_user_id: self.sell_user_id.clone(),
            maker_order_id: self.maker_order_id.clone(),
            taker_order_id: self.taker_order_id.clone(),
            price: self.price,
            quantity: self.quantity,
        }
    }
}

/// An order as submitted by a user, with the fills it has received so far.
#[derive(Debug)]
pub struct Order {
    pub symbol: String,
    pub user_id: String,
    pub order_id: String,
    pub side: Side,
    pub order_type: OrderType,
    pub price: u64,
    pub quantity: u64,
    pub filled_qty: u64,
    pub filled: Vec<Fill>,
    pub timestamp: u64,
    pub status: OrderStatus,
}

/// The part of an order that rests in a book, waiting for a counterparty.
#[derive(Debug)]
pub struct RestingOrder {
    pub symbol: String,
    pub order_id: String,
    pub user_id: String,
    pub side: Side,
    pub price: u64,
    pub qty: u64,
    pub timestamp: u64,
}

impl Clone for RestingOrder {
    fn clone(&self) -> (res: Self)
        ensures
            res == *self,
    {
        RestingOrder {
            symbol: self.symbol.clone(),
            order_id: self.order_id.clone(),
            user_id: self.user_id.clone(),
            side: self.side,
            price: self.price,
            qty: self.qty,
            timestamp: self.timestamp,
        }
    }
}

/// A resting order together with its neighbours in the queue of its price level.
#[derive(Debug)]
pub struct RestingNode {
    pub order: RestingOrder,
    pub prev_node: Option<String>,
    pub next_node: Option<String>,
}

/// The view of an optional string: the optional sequence of its characters.
pub open spec fn opt_view(s: Option<String>) -> Option<Seq<char>> {
    match s {
        Some(x) => Some(x@),
        None => None,
    }
}

/// Copies an optional string.
pub fn clone_opt(s: &Option<String>) -> (res: Option<String>)
    ensures
        res == *s,
{
    match s {
        Some(x) => Some(x.clone()),
        None => None,
    }
}

impl Clone for RestingNode {
    fn clone(&self) -> (res: Self)
        ensures
            res == *self,
    {
        RestingNode {
            order: self.order.clone(),
            prev_node: clone_opt(&self.prev_node),
            next_node: clone_opt(&self.next_node),
        }
    }
}

/// A request addressed to the engine.
#[derive(Debug)]
pub enum EngineCommand {
    PlaceOrder {
        symbol: String,
        user_id: String,
        side: Side,
        order_type: OrderType,
        price: u64,
        quantity: u64,
    },
    CancelOrder { symbol: String, order_id: String },
    GetOrderBook { symbol: String },
}

/// A change that a symbol's matching makes known to the balance book.
#[derive(Debug)]
pub enum BalanceEvent {
    Fill { symbol: String, price: u64, quantity: u64, buy_user_id: String, sell_user_id: String },
    CancelOrder { user_id: String, symbol: String, amount: u64 },
}

/// What the engine reports to its clients.
#[derive(Debug)]
pub enum EngineEvent {
    OrderPlaced { order: Order, remaining: u64 },
    OrderBookDepth { symbol: String, bids: Vec<(u64, u64)>, asks: Vec<(u64, u64)> },
    OrderCancelled { order_id: String },
    Error { message: String },
}

} // verus!
