//! The actor that owns the order book of one symbol: what it decides for each command.

use vstd::prelude::*;
use crate::book_model::{BookView, lemma_match_ignores_fills};
use crate::external::{new_ulid_text, ulid_text, unix_now};
use crate::laws::names_parties;
use crate::order_book::OrderBook;
use crate::types::{BalanceEvent, EngineCommand, Fill, Order, OrderStatus, OrderType, Side};

verus! {

/// A new order on `side` of type `order_type` at `price` for `quantity`, opening with
/// nothing filled, leaves a remainder that fits its level's total when matched against
/// `book` (whatever its symbol, user, id and time, which matching does not count by).
pub open spec fn placement_fits(book: BookView, side: Side, order_type: OrderType, price: u64, quantity: u64) -> bool {
    forall|o: Order|
        o.side == side && o.order_type == order_type && o.price == price && o.quantity == quantity
            && o.filled_qty == 0 ==> #[trigger] book.rest_fits(o)
}

/// The balance event that settles a fill.
pub open spec fn settles(e: BalanceEvent, f: Fill) -> bool {
    e == BalanceEvent::Fill {
        symbol: f.symbol,
        price: f.price,
        quantity: f.quantity,
        buy_user_id: f.buy_user_id,
        sell_user_id: f.sell_user_id,
    }
}

/// The amount a resting order has reserved: `qty * price` of the quote for a buy, `qty`
/// of the base for a sell.
pub open spec fn reserved_amount(side: Side, price: u64, qty: u64) -> u64 {
    match side {
        Side::Buy => (qty * price) as u64,
        Side::Sell => qty,
    }
}

/// The balance events that settle some fills, one per fill, in order.
pub fn fill_events(fills: &Vec<Fill>) -> (events: Vec<BalanceEvent>)
    ensures
        events@.len() == fills@.len(),
        forall|i: int| 0 <= i < fills@.len() ==> #[trigger] settles(events@[i], fills@[i]),
{
    let mut events: Vec<BalanceEvent> = Vec::new();
    let mut i: usize = 0;
    while i < fills.len()
        invariant
            i <= fills@.len(),
            events@.len() == i,
            forall|j: int| 0 <= j < i ==> #[trigger] settles(events@[j], fills@[j]),
        decreases fills@.len() - i,
    {
        let val = &fills[i];
        events.push(BalanceEvent::Fill {
            symbol: val.symbol.clone(),
            price: val.price,
            quantity: val.quantity,
            buy_user_id: val.buy_user_id.clone(),
            sell_user_id: val.sell_user_id.clone(),
        });
        i = i + 1;
    }
    events
}

/// Why the actor refused to place an order.
#[derive(Debug)]
pub enum PlaceRefusal {
    /// The new order's id is already resting in the book; nothing happened.
    IdInUse(String),
    /// What was left of a limit order would take its price level's total beyond the
    /// largest `u64`: the order as matching left it, with the fills made; nothing rests.
    LevelFull(Order, Vec<Fill>),
}

/// What placing an order with id `order_id` and time `timestamp` on `before` answers and
/// leaves (`after`): refused where what is left of a limit order does not fit its level,
/// after the fills; otherwise placed and matched.
pub open spec fn placed_with(
    before: BookView,
    after: BookView,
    symbol: String,
    user_id: String,
    side: Side,
    order_type: OrderType,
    price: u64,
    quantity: u64,
    order_id: String,
    timestamp: u64,
    res: Result<(Order, Vec<Fill>), PlaceRefusal>,
) -> bool {
    match res {
        Err(PlaceRefusal::IdInUse(_)) => false,
        Err(PlaceRefusal::LevelFull(o, fills)) => {
            let o0 = Order { filled_qty: 0, status: OrderStatus::Open, ..o };
            let r = before.match_rounds(o0, 0, (quantity + before.orders.dom().len()) as nat);
            &&& o.order_id == order_id
            &&& o.timestamp == timestamp
            &&& o.symbol == symbol
            &&& o.user_id == user_id
            &&& o.side == side
            &&& o.order_type == order_type
            &&& o.price == price
            &&& o.quantity == quantity
            &&& !before.rest_fits(o0)
            &&& !placement_fits(before, side, order_type, price, quantity)
            &&& after == r.0
            &&& o.filled_qty == r.1
            &&& o.filled@ == fills@
            &&& fills@.len() == r.2.len()
            &&& forall|i: int| 0 <= i < fills@.len() ==> #[trigger] fills@[i].terms() == r.2[i]
            &&& forall|i: int| 0 <= i < fills@.len() ==> #[trigger] ulid_text(fills@[i].trade_id@)
            &&& forall|i: int| 0 <= i < fills@.len() ==> {
                &&& before.orders.contains_key(#[trigger] fills@[i].maker_order_id@)
                &&& names_parties(o, before.orders[fills@[i].maker_order_id@], fills@[i].terms())
            }
        },
        Ok((o, fills)) => {
            let out = before.match_result(Order { filled_qty: 0, status: OrderStatus::Open, ..o });
            &&& o.order_id == order_id
            &&& o.timestamp == timestamp
            &&& o.symbol == symbol
            &&& o.user_id == user_id
            &&& o.side == side
            &&& o.order_type == order_type
            &&& o.price == price
            &&& o.quantity == quantity
            &&& before.rest_fits(Order { filled_qty: 0, status: OrderStatus::Open, ..o })
            &&& o.filled@ == fills@
            &&& forall|i: int| 0 <= i < fills@.len() ==> #[trigger] ulid_text(fills@[i].trade_id@)
            &&& after == out.book
            &&& o.filled_qty == out.filled_qty
            &&& o.status == out.status
            &&& fills@.len() == out.trades.len()
            &&& forall|i: int| 0 <= i < fills@.len() ==> #[trigger] fills@[i].terms() == out.trades[i]
            &&& forall|i: int| 0 <= i < fills@.len() ==> {
                &&& before.orders.contains_key(#[trigger] fills@[i].maker_order_id@)
                &&& names_parties(o, before.orders[fills@[i].maker_order_id@], fills@[i].terms())
            }
            &&& o.filled_qty >= quantity ==> o.status == OrderStatus::Filled
            &&& (o.filled_qty < quantity && order_type == OrderType::Market) ==> o.status == OrderStatus::Cancelled
        },
    }
}

/// What placing an order on `before` answers and leaves (`after`), for each way it can
/// go: refused because the new id is already resting; or, with a new ULID that was not
/// resting, as `placed_with` says for that id and some timestamp.
pub open spec fn place_outcome(
    before: BookView,
    after: BookView,
    symbol: String,
    user_id: String,
    side: Side,
    order_type: OrderType,
    price: u64,
    quantity: u64,
    res: Result<(Order, Vec<Fill>), PlaceRefusal>,
) -> bool {
    match res {
        Err(PlaceRefusal::IdInUse(id)) => after == before && before.orders.contains_key(id@) && ulid_text(id@),
        Err(PlaceRefusal::LevelFull(o, _)) => {
            &&& ulid_text(o.order_id@)
            &&& !before.orders.contains_key(o.order_id@)
            &&& placed_with(before, after, symbol, user_id, side, order_type, price, quantity, o.order_id, o.timestamp, res)
        },
        Ok((o, _)) => {
            &&& ulid_text(o.order_id@)
            &&& !before.orders.contains_key(o.order_id@)
            &&& placed_with(before, after, symbol, user_id, side, order_type, price, quantity, o.order_id, o.timestamp, res)
        },
    }
}

/// Cancelling `id` can work out what the order reserved: a resting buy's quantity times
/// its price stays within `u64`.
pub open spec fn cancel_fits(book: BookView, id: Seq<char>) -> bool {
    book.orders.contains_key(id) ==> {
        let o = book.orders[id];
        o.side == Side::Buy ==> o.qty * o.price <= u64::MAX
    }
}

/// What the actor of a symbol does in answer to one command.
#[derive(Debug)]
pub enum SymbolAction {
    /// A placement, with what `place_order` answered.
    Placed(Result<(Order, Vec<Fill>), PlaceRefusal>),
    /// A resting order was cancelled: its id, and the event that gives back what it reserved.
    Cancelled(String, BalanceEvent),
    /// A depth snapshot of the book, for the symbol named in the command.
    Depth(String, Vec<(u64, u64)>, Vec<(u64, u64)>),
    /// A cancellation named no resting order: the actor stops taking commands.
    Stop,
}

/// The actor of one symbol: the symbol and its order book.
pub struct SymbolActor {
    symbol: String,
    orderbook: OrderBook,
}

impl SymbolActor {
    /// The symbol this actor trades.
    pub closed spec fn symbol(&self) -> Seq<char> {
        self.symbol@
    }

    /// The actor's order book, in the model.
    pub closed spec fn book(&self) -> BookView {
        self.orderbook@
    }

    /// The actor's order book is consistent.
    pub closed spec fn wf(&self) -> bool {
        self.orderbook.wf()
    }

    /// Creates the actor of a symbol, with an empty book.
    pub fn new(symbol: String) -> (actor: Self)
        ensures
            actor.wf(),
            actor.symbol() == symbol@,
            actor.book().orders.is_empty(),
            actor.book().bids.is_empty(),
            actor.book().asks.is_empty(),
    {
        SymbolActor { symbol, orderbook: OrderBook::new() }
    }

    /// The order book.
    pub fn orderbook(&self) -> (b: &OrderBook)
        ensures
            b@ == self.book(),
            self.wf() ==> b.wf(),
    {
        &self.orderbook
    }

    /// Places an order with a given id, not resting in the book, and a given timestamp: the
    /// order opens with nothing filled and is matched against the book. Refused where what
    /// is left of a limit order would take its level's total beyond the largest `u64`:
    /// the fills are made but nothing rests.
    pub fn place_order_with(
        &mut self,
        symbol: String,
        user_id: String,
        side: Side,
        order_type: OrderType,
        price: u64,
        quantity: u64,
        order_id: String,
        timestamp: u64,
    ) -> (res: Result<(Order, Vec<Fill>), PlaceRefusal>)
        requires
            old(self).wf(),
            !old(self).book().orders.contains_key(order_id@),
        ensures
            final(self).wf(),
            final(self).symbol() == old(self).symbol(),
            placed_with(old(self).book(), final(self).book(), symbol, user_id, side, order_type, price, quantity,
                order_id, timestamp, res),
    {
        let mut created_order = Order {
            symbol,
            user_id,
            order_id,
            order_type,
            side,
            timestamp,
            price,
            quantity,
            filled: Vec::new(),
            filled_qty: 0,
            status: OrderStatus::Open,
        };
        let ghost o0 = created_order;
        match self.orderbook.try_match_order(&mut created_order) {
            Ok(fills) => {
                proof {
                    assert(created_order.filled@ =~= fills@);
                    let o1 = Order { filled_qty: 0, status: OrderStatus::Open, ..created_order };
                    lemma_match_ignores_fills(old(self).book(), o0, o1);
                }
                Ok((created_order, fills))
            },
            Err(fills) => {
                proof {
                    assert(created_order.filled@ =~= fills@);
                    let o1 = Order { filled_qty: 0, status: OrderStatus::Open, ..created_order };
                    lemma_match_ignores_fills(old(self).book(), o0, o1);
                    assert(old(self).book().match_rounds(o0, 0, (quantity + old(self).book().orders.dom().len()) as nat)
                        == old(self).book().match_rounds(o1, 0, (quantity + old(self).book().orders.dom().len()) as nat));
                    assert(!old(self).book().rest_fits(o0));
                }
                Err(PlaceRefusal::LevelFull(created_order, fills))
            },
        }
    }

    /// Places an order: it gets a new ULID as its id and the current time as its
    /// timestamp, then is placed as by `place_order_with`. Refused, with the book
    /// unchanged, where an order with the new id is already resting.
    pub fn place_order(
        &mut self,
        symbol: String,
        user_id: String,
        side: Side,
        order_type: OrderType,
        price: u64,
        quantity: u64,
    ) -> (res: Result<(Order, Vec<Fill>), PlaceRefusal>)
        requires
            old(self).wf(),
        ensures
            final(self).wf(),
            final(self).symbol() == old(self).symbol(),
            place_outcome(old(self).book(), final(self).book(), symbol, user_id, side, order_type, price, quantity, res),
    {
        let new_order_id = new_ulid_text();
        let timestamp = unix_now() as u64;
        match self.orderbook.get_order(new_order_id.as_str()) {
            Some(_) => Err(PlaceRefusal::IdInUse(new_order_id)),
            None => self.place_order_with(symbol, user_id, side, order_type, price, quantity, new_order_id, timestamp),
        }
    }

    /// Cancels a resting order: takes it out of the book and returns the event that gives
    /// back what it reserved, for the symbol named in the command. `None`, with the book
    /// unchanged, where no order has the id.
    pub fn cancel_order(&mut self, symbol: String, order_id: &str) -> (res: Option<BalanceEvent>)
        requires
            old(self).wf(),
            cancel_fits(old(self).book(), order_id@),
        ensures
            final(self).wf(),
            final(self).symbol() == old(self).symbol(),
            final(self).book() == old(self).book().remove_order(order_id@),
            match res {
                None => !old(self).book().orders.contains_key(order_id@),
                Some(e) => {
                    let o = old(self).book().orders[order_id@];
                    &&& old(self).book().orders.contains_key(order_id@)
                    &&& e == BalanceEvent::CancelOrder {
                        user_id: o.user_id,
                        symbol,
                        amount: reserved_amount(o.side, o.price, o.qty),
                    }
                },
            },
    {
        let node = match self.orderbook.remove_order(order_id) {
            None => {
                return None;
            },
            Some(n) => n,
        };
        let order = node.order;
        let amount = match order.side {
            Side::Buy => order.qty * order.price,
            Side::Sell => order.qty,
        };
        Some(BalanceEvent::CancelOrder { user_id: order.user_id, symbol, amount })
    }

    /// A depth snapshot of the book, as `OrderBook::get_depth` gives it.
    pub fn get_order_book(&self) -> (res: (Vec<(u64, u64)>, Vec<(u64, u64)>))
        requires
            self.wf(),
        ensures
            self.book().depth_of(Side::Buy, res.0@),
            self.book().depth_of(Side::Sell, res.1@),
    {
        self.orderbook.get_depth()
    }

    /// Answers one command: places an order, cancels one (and stops where the command
    /// names no resting order), or takes a depth snapshot.
    pub fn handle_command(&mut self, cmd: EngineCommand) -> (action: SymbolAction)
        requires
            old(self).wf(),
            cmd matches EngineCommand::CancelOrder { order_id, .. } ==> cancel_fits(old(self).book(), order_id@),
        ensures
            final(self).wf(),
            final(self).symbol() == old(self).symbol(),
            match cmd {
                EngineCommand::PlaceOrder { symbol, user_id, side, order_type, price, quantity } => match action {
                    SymbolAction::Placed(res) => place_outcome(old(self).book(), final(self).book(), symbol, user_id,
                        side, order_type, price, quantity, res),
                    _ => false,
                },
                EngineCommand::CancelOrder { symbol, order_id } => {
                    &&& final(self).book() == old(self).book().remove_order(order_id@)
                    &&& match action {
                        SymbolAction::Stop => !old(self).book().orders.contains_key(order_id@),
                        SymbolAction::Cancelled(id, e) => {
                            let o = old(self).book().orders[order_id@];
                            &&& old(self).book().orders.contains_key(order_id@)
                            &&& id == order_id
                            &&& e == BalanceEvent::CancelOrder {
                                user_id: o.user_id,
                                symbol,
                                amount: reserved_amount(o.side, o.price, o.qty),
                            }
                        },
                        _ => false,
                    }
                },
                EngineCommand::GetOrderBook { symbol } => match action {
                    SymbolAction::Depth(s, bids, asks) => {
                        &&& final(self).book() == old(self).book()
                        &&& s == symbol
                        &&& old(self).book().depth_of(Side::Buy, bids@)
                        &&& old(self).book().depth_of(Side::Sell, asks@)
                    },
                    _ => false,
                },
            },
    {
        match cmd {
            EngineCommand::PlaceOrder { symbol, user_id, side, order_type, price, quantity } => {
                SymbolAction::Placed(self.place_order(symbol, user_id, side, order_type, price, quantity))
            },
            EngineCommand::CancelOrder { symbol, order_id } => match self.cancel_order(symbol, order_id.as_str()) {
                Some(event) => SymbolAction::Cancelled(order_id, event),
                None => SymbolAction::Stop,
            },
            EngineCommand::GetOrderBook { symbol } => {
                let (bids, asks) = self.get_order_book();
                SymbolAction::Depth(symbol, bids, asks)
            },
        }
    }
}

} // verus!
