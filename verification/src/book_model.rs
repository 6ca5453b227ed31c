//! The abstract model of an order book: resting orders by id, and for each side and
//! price a FIFO queue of order ids.

use vstd::prelude::*;
use crate::types::{Order, OrderStatus, OrderType, RestingOrder, Side, TradeTerms};

verus! {

/// The abstract state of one price level: its queue of order ids, oldest first, and
/// whether the level still records which order is at the front of the queue.
pub struct LevelView {
    pub queue: Seq<Seq<char>>,
    pub head_set: bool,
}

/// The abstract state of an order book.
pub struct BookView {
    pub orders: Map<Seq<char>, RestingOrder>,
    pub bids: Map<u64, LevelView>,
    pub asks: Map<u64, LevelView>,
}

/// The side that an order on `side` trades against.
pub open spec fn opposite(side: Side) -> Side {
    match side {
        Side::Buy => Side::Sell,
        Side::Sell => Side::Buy,
    }
}

/// An incoming order accepts a resting price: a market order accepts any price, a limit
/// buy one at or below its limit, a limit sell one at or above its limit.
pub open spec fn accepts_price(o: Order, price: u64) -> bool {
    match o.order_type {
        OrderType::Market => true,
        OrderType::Limit => match o.side {
            Side::Buy => o.price >= price,
            Side::Sell => o.price <= price,
        },
    }
}

/// `p` is the best price that levels `lv` offer to an order on side `taker`: the lowest
/// ask for a buyer, the highest bid for a seller.
pub open spec fn is_best_price(lv: Map<u64, LevelView>, taker: Side, p: u64) -> bool {
    &&& lv.contains_key(p)
    &&& forall|k: u64| #[trigger] lv.contains_key(k) ==> match taker {
        Side::Buy => p <= k,
        Side::Sell => k <= p,
    }
}

/// The outcome of matching an incoming order against a book.
pub struct MatchOutcome {
    /// The book afterwards.
    pub book: BookView,
    /// The incoming order's filled quantity afterwards.
    pub filled_qty: u64,
    /// The trades made, in order.
    pub trades: Seq<TradeTerms>,
    /// The incoming order's status afterwards.
    pub status: OrderStatus,
}

/// The part of an incoming order that is left to rest in the book.
pub open spec fn remainder(o: Order, filled: u64) -> RestingOrder {
    RestingOrder {
        symbol: o.symbol,
        order_id: o.order_id,
        user_id: o.user_id,
        side: o.side,
        price: o.price,
        qty: (o.quantity - filled) as u64,
        timestamp: o.timestamp,
    }
}

/// How many price levels of each side a depth snapshot lists.
pub const DEPTH_LEVELS: usize = 50;

/// Price `a` comes before price `b` in a depth listing of side `s`: bids from the highest
/// down, asks from the lowest up.
pub open spec fn outranks(s: Side, a: u64, b: u64) -> bool {
    match s {
        Side::Buy => a > b,
        Side::Sell => a < b,
    }
}

/// The sum of the remaining quantities of the orders in a queue.
pub open spec fn queue_total(q: Seq<Seq<char>>, orders: Map<Seq<char>, RestingOrder>) -> nat
    decreases q.len(),
{
    if q.len() == 0 {
        0
    } else {
        (queue_total(q.drop_last(), orders) + orders[q.last()].qty) as nat
    }
}

/// The total is determined by the quantities of the orders named in the queue.
pub proof fn lemma_queue_total_frame(
    q: Seq<Seq<char>>,
    o1: Map<Seq<char>, RestingOrder>,
    o2: Map<Seq<char>, RestingOrder>,
)
    requires
        forall|i: int| 0 <= i < q.len() ==> #[trigger] o1[q[i]].qty == o2[q[i]].qty,
    ensures
        queue_total(q, o1) == queue_total(q, o2),
    decreases q.len(),
{
    if q.len() > 0 {
        let d = q.drop_last();
        assert forall|i: int| 0 <= i < d.len() implies #[trigger] o1[d[i]].qty == o2[d[i]].qty by {
            assert(d[i] == q[i]);
        }
        lemma_queue_total_frame(d, o1, o2);
        assert(o1[q[q.len() - 1]].qty == o2[q[q.len() - 1]].qty);
    }
}

/// Removing one entry from a queue takes that entry's quantity off the total.
pub proof fn lemma_queue_total_remove(q: Seq<Seq<char>>, i: int, o: Map<Seq<char>, RestingOrder>)
    requires
        0 <= i < q.len(),
    ensures
        queue_total(q.remove(i), o) + o[q[i]].qty == queue_total(q, o),
    decreases q.len(),
{
    if i == q.len() - 1 {
        assert(q.remove(i) =~= q.drop_last());
    } else {
        let d = q.drop_last();
        lemma_queue_total_remove(d, i, o);
        assert(q.remove(i).drop_last() =~= d.remove(i));
        assert(q.remove(i).last() == q.last());
    }
}

/// Appending an entry adds its quantity to the total.
pub proof fn lemma_queue_total_push(q: Seq<Seq<char>>, k: Seq<char>, o: Map<Seq<char>, RestingOrder>)
    ensures
        queue_total(q.push(k), o) == queue_total(q, o) + o[k].qty,
{
    assert(q.push(k).drop_last() =~= q);
}

/// Changing the order stored under one id changes the total of a queue that holds the
/// id once by the difference of the two quantities.
pub proof fn lemma_queue_total_update(
    q: Seq<Seq<char>>,
    o: Map<Seq<char>, RestingOrder>,
    j: int,
    r: RestingOrder,
)
    requires
        0 <= j < q.len(),
        q.no_duplicates(),
    ensures
        queue_total(q, o.insert(q[j], r)) + o[q[j]].qty == queue_total(q, o) + r.qty,
{
    let k = q[j];
    let o2 = o.insert(k, r);
    lemma_queue_total_remove(q, j, o);
    lemma_queue_total_remove(q, j, o2);
    let qr = q.remove(j);
    assert forall|i: int| 0 <= i < qr.len() implies #[trigger] o[qr[i]].qty == o2[qr[i]].qty by {
        if i < j {
            assert(qr[i] == q[i]);
        } else {
            assert(qr[i] == q[i + 1]);
        }
    }
    lemma_queue_total_frame(qr, o, o2);
}

impl LevelView {
    /// The level after appending an order id at the back of its queue.
    pub open spec fn push(self, id: Seq<char>) -> LevelView {
        LevelView { queue: self.queue.push(id), head_set: self.head_set }
    }
}

impl BookView {
    /// The price levels of one side of the book.
    pub open spec fn levels(self, side: Side) -> Map<u64, LevelView> {
        match side {
            Side::Buy => self.bids,
            Side::Sell => self.asks,
        }
    }

    /// The book with the price levels of one side replaced.
    pub open spec fn with_levels(self, side: Side, m: Map<u64, LevelView>) -> BookView {
        match side {
            Side::Buy => BookView { bids: m, ..self },
            Side::Sell => BookView { asks: m, ..self },
        }
    }

    /// The total remaining quantity resting at one price of one side (0 where no level).
    pub open spec fn level_total(self, side: Side, price: u64) -> nat {
        if self.levels(side).contains_key(price) {
            queue_total(self.levels(side)[price].queue, self.orders)
        } else {
            0
        }
    }

    /// The consistency of the model: every resting order sits in exactly the queue of its
    /// side and price, once, and every queue is non-empty and names only resting orders.
    pub open spec fn wf(self) -> bool {
        &&& self.orders.dom().finite()
        &&& self.bids.dom().finite()
        &&& self.asks.dom().finite()
        &&& forall|k: Seq<char>| #[trigger] self.orders.contains_key(k) ==> self.orders[k].order_id@ == k
        &&& forall|k: Seq<char>| #[trigger] self.orders.contains_key(k) ==> {
            let o = self.orders[k];
            &&& self.levels(o.side).contains_key(o.price)
            &&& self.levels(o.side)[o.price].queue.contains(k)
        }
        &&& forall|s: Side, p: u64| #[trigger] self.levels(s).contains_key(p) ==> self.queue_ok(s, p)
    }

    /// The order `k` rests on side `s` at price `p`.
    pub open spec fn rests_at(self, s: Side, p: u64, k: Seq<char>) -> bool {
        &&& self.orders.contains_key(k)
        &&& self.orders[k].side == s
        &&& self.orders[k].price == p
    }

    /// The queue of level (`s`, `p`) is non-empty, names each order once, and names only
    /// orders resting at that side and price.
    pub open spec fn queue_ok(self, s: Side, p: u64) -> bool {
        let q = self.levels(s)[p].queue;
        &&& q.len() > 0
        &&& q.no_duplicates()
        &&& forall|i: int| 0 <= i < q.len() ==> #[trigger] self.rests_at(s, p, q[i])
    }

    /// The place of a resting order in the queue of its level.
    pub open spec fn position(self, id: Seq<char>) -> int {
        let o = self.orders[id];
        let q = self.levels(o.side)[o.price].queue;
        choose|i: int| 0 <= i < q.len() && q[i] == id
    }

    /// The id queued just before a resting order at its level, if any.
    pub open spec fn prev_of(self, id: Seq<char>) -> Option<Seq<char>> {
        let o = self.orders[id];
        let q = self.levels(o.side)[o.price].queue;
        let i = self.position(id);
        if i == 0 {
            None
        } else {
            Some(q[i - 1])
        }
    }

    /// The id queued just after a resting order at its level, if any.
    pub open spec fn next_of(self, id: Seq<char>) -> Option<Seq<char>> {
        let o = self.orders[id];
        let q = self.levels(o.side)[o.price].queue;
        let i = self.position(id);
        if i == q.len() - 1 {
            None
        } else {
            Some(q[i + 1])
        }
    }

    /// The book after an order is queued at the back of its price level; a new level
    /// records its front order.
    pub open spec fn add_order(self, o: RestingOrder) -> BookView {
        let id = o.order_id@;
        let lv = self.levels(o.side);
        let level = if lv.contains_key(o.price) {
            lv[o.price].push(id)
        } else {
            LevelView { queue: seq![id], head_set: true }
        };
        BookView { orders: self.orders.insert(id, o), ..self.with_levels(o.side, lv.insert(o.price, level)) }
    }

    /// The book after a resting order is taken out of its queue; a level left empty goes
    /// away, and a level whose front order is taken no longer records its front order.
    pub open spec fn remove_order(self, id: Seq<char>) -> BookView {
        if !self.orders.contains_key(id) {
            self
        } else {
            let o = self.orders[id];
            let lv = self.levels(o.side);
            let l = lv[o.price];
            let i = self.position(id);
            let q = l.queue.remove(i);
            let lv2 = if q.len() == 0 {
                lv.remove(o.price)
            } else {
                lv.insert(o.price, LevelView { queue: q, head_set: l.head_set && i != 0 })
            };
            BookView { orders: self.orders.remove(id), ..self.with_levels(o.side, lv2) }
        }
    }

    /// The best price the book offers to an order on side `taker`, if any.
    pub open spec fn best_price(self, taker: Side) -> Option<u64> {
        let lv = self.levels(opposite(taker));
        if exists|p: u64| is_best_price(lv, taker, p) {
            Some(choose|p: u64| is_best_price(lv, taker, p))
        } else {
            None
        }
    }

    /// The book with the resting order `id` given a new remaining quantity.
    pub open spec fn with_qty(self, id: Seq<char>, qty: u64) -> BookView {
        BookView { orders: self.orders.insert(id, RestingOrder { qty, ..self.orders[id] }), ..self }
    }

    /// One round of matching an incoming order `o` that has `filled` filled so far: the
    /// order at the front of the best opposite level trades, at its own price, as much as
    /// both have left; a resting order left with nothing is taken out of the book.
    /// `None` where matching stops: the incoming order is filled, the opposite side is
    /// empty, the best level does not record its front order, or the price is not
    /// acceptable.
    pub open spec fn match_step(self, o: Order, filled: u64) -> Option<(BookView, u64, TradeTerms)> {
        if filled >= o.quantity {
            None
        } else {
            match self.best_price(o.side) {
                None => None,
                Some(p) => {
                    let l = self.levels(opposite(o.side))[p];
                    if !l.head_set {
                        None
                    } else {
                        let id = l.queue[0];
                        let r = self.orders[id];
                        if !accepts_price(o, r.price) {
                            None
                        } else {
                            let remain = (o.quantity - filled) as u64;
                            let fq = if remain <= r.qty { remain } else { r.qty };
                            let v1 = self.with_qty(id, (r.qty - fq) as u64);
                            let v2 = if r.qty == fq { v1.remove_order(id) } else { v1 };
                            let t = TradeTerms {
                                symbol: o.symbol@,
                                buy_user_id: match o.side {
                                    Side::Buy => o.user_id@,
                                    Side::Sell => r.user_id@,
                                },
                                sell_user_id: match o.side {
                                    Side::Buy => r.user_id@,
                                    Side::Sell => o.user_id@,
                                },
                                maker_order_id: r.order_id@,
                                taker_order_id: o.order_id@,
                                price: r.price,
                                quantity: fq,
                            };
                            Some((v2, (filled + fq) as u64, t))
                        }
                    }
                },
            }
        }
    }

    /// Up to `fuel` rounds of matching: the book, the filled quantity and the trades when
    /// matching stops.
    pub open spec fn match_rounds(self, o: Order, filled: u64, fuel: nat) -> (BookView, u64, Seq<TradeTerms>)
        decreases fuel,
    {
        if fuel == 0 {
            (self, filled, Seq::empty())
        } else {
            match self.match_step(o, filled) {
                None => (self, filled, Seq::empty()),
                Some(step) => {
                    let rest = step.0.match_rounds(o, step.1, (fuel - 1) as nat);
                    (rest.0, rest.1, seq![step.2] + rest.2)
                },
            }
        }
    }

    /// Matching an incoming order to the end: rounds until matching stops (each round
    /// fills some quantity or takes a resting order out, so the fuel given suffices), then
    /// an unfilled limit order rests with what is left and an unfilled market order is
    /// cancelled.
    pub open spec fn match_result(self, o: Order) -> MatchOutcome {
        let r = self.match_rounds(o, o.filled_qty, (o.quantity + self.orders.dom().len()) as nat);
        let book = r.0;
        let filled = r.1;
        let trades = r.2;
        if filled < o.quantity {
            match o.order_type {
                OrderType::Limit => MatchOutcome {
                    book: book.add_order(remainder(o, filled)),
                    filled_qty: filled,
                    trades,
                    status: if trades.len() > 0 { OrderStatus::PartiallyFilled } else { o.status },
                },
                OrderType::Market => MatchOutcome {
                    book,
                    filled_qty: filled,
                    trades,
                    status: OrderStatus::Cancelled,
                },
            }
        } else {
            MatchOutcome { book, filled_qty: filled, trades, status: OrderStatus::Filled }
        }
    }

    /// `r` lists the best `DEPTH_LEVELS` levels of side `s` (all of them where there are
    /// fewer), best first, each as its price and the total resting there.
    pub open spec fn depth_of(self, s: Side, r: Seq<(u64, u64)>) -> bool {
        let lv = self.levels(s);
        &&& r.len() == if lv.dom().len() < DEPTH_LEVELS { lv.dom().len() } else { DEPTH_LEVELS as nat }
        &&& forall|i: int| 0 <= i < r.len() ==> #[trigger] lv.contains_key(r[i].0) && r[i].1 == self.level_total(s, r[i].0)
        &&& forall|i: int, j: int| 0 <= i < j < r.len() ==> outranks(s, r[i].0, r[j].0)
        &&& forall|p: u64| #[trigger] lv.contains_key(p) && (forall|i: int| 0 <= i < r.len() ==> r[i].0 != p)
            ==> forall|i: int| 0 <= i < r.len() ==> outranks(s, r[i].0, p)
    }

    /// An unfilled limit order's remainder fits in its level's total: the bound the total
    /// of a level must respect when matching ends with the remainder resting there.
    pub open spec fn rest_fits(self, o: Order) -> bool {
        let r = self.match_rounds(o, o.filled_qty, (o.quantity + self.orders.dom().len()) as nat);
        (r.1 < o.quantity && o.order_type == OrderType::Limit) ==> self.level_total(o.side, o.price)
            + (o.quantity - r.1) <= u64::MAX
    }
}

/// A change that keeps one side's levels and every order resting on that side keeps the
/// totals of that side.
pub proof fn lemma_level_total_kept(v: BookView, v2: BookView, s: Side, p: u64)
    requires
        v.wf(),
        v2.levels(s) == v.levels(s),
        forall|k: Seq<char>| #[trigger] v.orders.contains_key(k) && v.orders[k].side == s
            ==> v2.orders.contains_key(k) && v2.orders[k] == v.orders[k],
    ensures
        v2.level_total(s, p) == v.level_total(s, p),
{
    if v.levels(s).contains_key(p) {
        assert(v.queue_ok(s, p));
        let q = v.levels(s)[p].queue;
        assert forall|i: int| 0 <= i < q.len() implies #[trigger] v.orders[q[i]].qty == v2.orders[q[i]].qty by {
            assert(v.rests_at(s, p, q[i]));
        }
        lemma_queue_total_frame(q, v.orders, v2.orders);
    }
}

/// Two orders agree on everything but the list of fills they carry.
pub open spec fn same_but_fills(o1: Order, o2: Order) -> bool {
    &&& o1.symbol == o2.symbol
    &&& o1.user_id == o2.user_id
    &&& o1.order_id == o2.order_id
    &&& o1.side == o2.side
    &&& o1.order_type == o2.order_type
    &&& o1.price == o2.price
    &&& o1.quantity == o2.quantity
    &&& o1.filled_qty == o2.filled_qty
    &&& o1.timestamp == o2.timestamp
    &&& o1.status == o2.status
}

proof fn lemma_rounds_ignore_fills(v: BookView, o1: Order, o2: Order, filled: u64, fuel: nat)
    requires
        same_but_fills(o1, o2),
    ensures
        v.match_rounds(o1, filled, fuel) == v.match_rounds(o2, filled, fuel),
    decreases fuel,
{
    assert(v.match_step(o1, filled) == v.match_step(o2, filled));
    if fuel > 0 {
        match v.match_step(o1, filled) {
            None => {},
            Some(step) => {
                lemma_rounds_ignore_fills(step.0, o1, o2, step.1, (fuel - 1) as nat);
            },
        }
    }
}

/// Matching does not look at the fills an incoming order already carries.
pub proof fn lemma_match_ignores_fills(v: BookView, o1: Order, o2: Order)
    requires
        same_but_fills(o1, o2),
    ensures
        v.match_result(o1) == v.match_result(o2),
        v.rest_fits(o1) == v.rest_fits(o2),
        v.match_rounds(o1, o1.filled_qty, (o1.quantity + v.orders.dom().len()) as nat)
            == v.match_rounds(o2, o2.filled_qty, (o2.quantity + v.orders.dom().len()) as nat),
{
    lemma_rounds_ignore_fills(v, o1, o2, o1.filled_qty, (o1.quantity + v.orders.dom().len()) as nat);
    assert(remainder(o1, v.match_rounds(o1, o1.filled_qty, (o1.quantity + v.orders.dom().len()) as nat).1)
        == remainder(o2, v.match_rounds(o2, o2.filled_qty, (o2.quantity + v.orders.dom().len()) as nat).1));
}

/// The position of a resting order in a consistent book is its one place in its queue.
pub proof fn lemma_model_position(v: BookView, id: Seq<char>)
    requires
        v.wf(),
        v.orders.contains_key(id),
    ensures
        ({
            let o = v.orders[id];
            let q = v.levels(o.side)[o.price].queue;
            let i = v.position(id);
            &&& v.levels(o.side).contains_key(o.price)
            &&& 0 <= i < q.len()
            &&& q[i] == id
        }),
{
    let o = v.orders[id];
    let q = v.levels(o.side)[o.price].queue;
    assert(q.contains(id));
}

/// Setting the quantity of a resting order keeps a book consistent and its set of orders.
pub proof fn lemma_model_with_qty_wf(v: BookView, id: Seq<char>, qty: u64)
    requires
        v.wf(),
        v.orders.contains_key(id),
    ensures
        v.with_qty(id, qty).wf(),
        v.with_qty(id, qty).orders.dom() == v.orders.dom(),
        forall|s: Side| #[trigger] v.with_qty(id, qty).levels(s) == v.levels(s),
{
    let v2 = v.with_qty(id, qty);
    assert(v2.orders.dom() =~= v.orders.dom());
    assert forall|s: Side| #[trigger] v2.levels(s) == v.levels(s) by {}
    assert forall|s: Side, p: u64| #[trigger] v2.levels(s).contains_key(p) implies v2.queue_ok(s, p) by {
        assert(v.queue_ok(s, p));
        let q = v.levels(s)[p].queue;
        assert forall|i: int| 0 <= i < q.len() implies #[trigger] v2.rests_at(s, p, q[i]) by {
            assert(v.rests_at(s, p, q[i]));
        }
    }
}

/// Taking a resting order out keeps a book consistent, and removes just that order.
pub proof fn lemma_model_remove_wf(v: BookView, id: Seq<char>)
    requires
        v.wf(),
    ensures
        v.remove_order(id).wf(),
        v.remove_order(id).orders == v.orders.remove(id),
        forall|s: Side| s != v.orders[id].side ==> #[trigger] v.remove_order(id).levels(s) == v.levels(s),
        forall|s: Side, x: u64| #[trigger] v.remove_order(id).levels(s).contains_key(x) ==> v.levels(s).contains_key(x),
{
    if v.orders.contains_key(id) {
        lemma_model_position(v, id);
        let o = v.orders[id];
        let lv = v.levels(o.side);
        let l = lv[o.price];
        let i = v.position(id);
        let q = l.queue.remove(i);
        let v2 = v.remove_order(id);
        assert(v.queue_ok(o.side, o.price));
        assert(v2.orders == v.orders.remove(id));
        assert forall|s: Side| s != o.side implies #[trigger] v2.levels(s) == v.levels(s) by {
            match s { Side::Buy => {}, Side::Sell => {} }
        }
        assert(v2.levels(o.side) == if q.len() == 0 { lv.remove(o.price) } else {
            lv.insert(o.price, LevelView { queue: q, head_set: l.head_set && i != 0 })
        }) by {
            match o.side { Side::Buy => {}, Side::Sell => {} }
        }
        assert(v2.bids.dom().finite() && v2.asks.dom().finite()) by {
            match o.side { Side::Buy => {}, Side::Sell => {} }
        }
        // the queue keeps its other entries, once each
        assert forall|j: int| 0 <= j < q.len() implies #[trigger] q[j] != id && l.queue.contains(q[j]) by {
            if j < i {
                assert(q[j] == l.queue[j]);
            } else {
                assert(q[j] == l.queue[j + 1]);
            }
        }
        assert(q.no_duplicates()) by {
            assert forall|a: int, b: int| 0 <= a < q.len() && 0 <= b < q.len() && a != b implies q[a] != q[b] by {
                let a0 = if a < i { a } else { a + 1 };
                let b0 = if b < i { b } else { b + 1 };
                assert(q[a] == l.queue[a0]);
                assert(q[b] == l.queue[b0]);
            }
        }
        assert forall|k: Seq<char>| #[trigger] v2.orders.contains_key(k) implies v2.orders[k].order_id@ == k && ({
            let ok = v2.orders[k];
            &&& v2.levels(ok.side).contains_key(ok.price)
            &&& v2.levels(ok.side)[ok.price].queue.contains(k)
        }) by {
            let ok = v.orders[k];
            assert(v.orders.contains_key(k));
            if ok.side == o.side && ok.price == o.price {
                let j = choose|j: int| 0 <= j < l.queue.len() && l.queue[j] == k;
                assert(j != i);
                if j < i {
                    assert(q[j] == k);
                } else {
                    assert(q[j - 1] == k);
                }
            }
        }
        assert forall|s: Side, p: u64| #[trigger] v2.levels(s).contains_key(p) implies v2.queue_ok(s, p) by {
            if s == o.side && p == o.price {
                assert forall|j: int| 0 <= j < q.len() implies #[trigger] v2.rests_at(s, p, q[j]) by {
                    let k = q[j];
                    let jj = if j < i { j } else { j + 1 };
                    assert(l.queue[jj] == k);
                    assert(v.rests_at(s, p, l.queue[jj]));
                }
            } else {
                assert(v.levels(s).contains_key(p));
                assert(v2.levels(s)[p] == v.levels(s)[p]);
                assert(v.queue_ok(s, p));
                let q2 = v.levels(s)[p].queue;
                assert forall|j: int| 0 <= j < q2.len() implies #[trigger] v2.rests_at(s, p, q2[j]) by {
                    assert(v.rests_at(s, p, q2[j]));
                }
            }
        }
    }
}

/// One round of matching keeps a book consistent and never adds an order.
pub proof fn lemma_step_wf(v: BookView, o: Order, filled: u64)
    requires
        v.wf(),
        v.match_step(o, filled) is Some,
    ensures
        v.match_step(o, filled).unwrap().0.wf(),
        v.match_step(o, filled).unwrap().0.orders.dom().subset_of(v.orders.dom()),
        v.match_step(o, filled).unwrap().0.levels(o.side) == v.levels(o.side),
        forall|s: Side, x: u64| #[trigger] v.match_step(o, filled).unwrap().0.levels(s).contains_key(x)
            ==> v.levels(s).contains_key(x),
        forall|k: Seq<char>| #[trigger] v.orders.contains_key(k) && v.orders[k].side == o.side
            ==> v.match_step(o, filled).unwrap().0.orders.contains_key(k)
                && v.match_step(o, filled).unwrap().0.orders[k] == v.orders[k],
{
    let p = v.best_price(o.side).unwrap();
    let lv = v.levels(opposite(o.side));
    let c = choose|x: u64| is_best_price(lv, o.side, x);
    assert(is_best_price(lv, o.side, c));
    assert(lv.contains_key(p));
    let l = lv[p];
    assert(v.queue_ok(opposite(o.side), p));
    let id = l.queue[0];
    assert(v.rests_at(opposite(o.side), p, id));
    let r = v.orders[id];
    let remain = (o.quantity - filled) as u64;
    let fq = if remain <= r.qty { remain } else { r.qty };
    let v1 = v.with_qty(id, (r.qty - fq) as u64);
    lemma_model_with_qty_wf(v, id, (r.qty - fq) as u64);
    if r.qty == fq {
        lemma_model_remove_wf(v1, id);
        assert(v1.orders[id].side == opposite(o.side));
        assert(opposite(o.side) != o.side) by {
            match o.side { Side::Buy => {}, Side::Sell => {} }
        }
    }
    assert(v1.levels(o.side) == v.levels(o.side));
}

/// Matching rounds keep a book consistent, never add an order, and leave the incoming
/// order's own side as it was.
pub proof fn lemma_rounds_wf(v: BookView, o: Order, filled: u64, fuel: nat)
    requires
        v.wf(),
    ensures
        v.match_rounds(o, filled, fuel).0.wf(),
        v.match_rounds(o, filled, fuel).0.orders.dom().subset_of(v.orders.dom()),
        forall|p: u64| #[trigger] v.match_rounds(o, filled, fuel).0.level_total(o.side, p) == v.level_total(o.side, p),
    decreases fuel,
{
    if fuel > 0 {
        match v.match_step(o, filled) {
            None => {},
            Some(step) => {
                lemma_step_wf(v, o, filled);
                lemma_rounds_wf(step.0, o, step.1, (fuel - 1) as nat);
                assert forall|p: u64| #[trigger] step.0.level_total(o.side, p) == v.level_total(o.side, p) by {
                    lemma_level_total_kept(v, step.0, o.side, p);
                }
            },
        }
    }
}

} // verus!
