//! Properties of the order book and of the balance book that hold across operations.

use vstd::prelude::*;
use crate::balance::{Balances, add_model, balance_of, covers, credited, debited, deduct_model, event_fits,
    event_model, lock_model, release_model, reservation, settle_model, with_balance, with_user};
use crate::symbol::symbol_parts;
use crate::book_model::{BookView, LevelView, accepts_price, is_best_price, lemma_model_position, lemma_queue_total_frame,
    lemma_model_remove_wf, lemma_model_with_qty_wf, lemma_queue_total_push, lemma_rounds_wf, lemma_step_wf,
    opposite, remainder};
use crate::types::{BalanceEvent, BalancePool, Order, OrderStatus, OrderType, RestingOrder, Side, SymbolBalance, TradeTerms};

verus! {

/// The total quantity of some trades.
pub open spec fn traded_qty(ts: Seq<TradeTerms>) -> nat
    decreases ts.len(),
{
    if ts.len() == 0 {
        0
    } else {
        (ts[0].quantity + traded_qty(ts.drop_first())) as nat
    }
}

/// Taking out an order that is not at the front of its level keeps the other orders of
/// the level in their order and keeps the level's record of its front order.
pub proof fn law_removal_keeps_time_priority(v: BookView, id: Seq<char>)
    requires
        v.wf(),
        v.orders.contains_key(id),
        v.position(id) != 0,
    ensures
        ({
            let o = v.orders[id];
            let l = v.levels(o.side)[o.price];
            let l2 = v.remove_order(id).levels(o.side)[o.price];
            &&& v.remove_order(id).levels(o.side).contains_key(o.price)
            &&& l2.queue == l.queue.remove(v.position(id))
            &&& l2.head_set == l.head_set
        }),
{
    lemma_model_position(v, id);
    let o = v.orders[id];
    match o.side { Side::Buy => {}, Side::Sell => {} }
}

/// A trade an incoming order `o` made is at a price `o` accepts, and names `o` and its
/// symbol.
pub open spec fn fair_trade(o: Order, t: TradeTerms) -> bool {
    &&& accepts_price(o, t.price)
    &&& t.taker_order_id == o.order_id@
    &&& t.symbol == o.symbol@
}

/// Queuing an order and then taking it out again leaves the book as it was.
pub proof fn law_remove_undoes_add(v: BookView, o: RestingOrder)
    requires
        v.wf(),
        !v.orders.contains_key(o.order_id@),
    ensures
        v.add_order(o).remove_order(o.order_id@) == v,
{
    let id = o.order_id@;
    let v1 = v.add_order(o);
    let lv = v.levels(o.side);
    assert(v1.orders.contains_key(id));
    assert(v1.orders[id] == o);
    assert(v1.levels(o.side) == lv.insert(o.price, if lv.contains_key(o.price) {
        lv[o.price].push(id)
    } else {
        LevelView { queue: seq![id], head_set: true }
    })) by {
        match o.side { Side::Buy => {}, Side::Sell => {} }
    }
    let q1 = v1.levels(o.side)[o.price].queue;
    let n = q1.len() - 1;
    if lv.contains_key(o.price) {
        assert(v.queue_ok(o.side, o.price));
        let q0 = lv[o.price].queue;
        assert(!q0.contains(id)) by {
            if q0.contains(id) {
                let j = choose|j: int| 0 <= j < q0.len() && q0[j] == id;
                assert(v.rests_at(o.side, o.price, q0[j]));
            }
        }
        assert(q1[n] == id);
        let i = v1.position(id);
        assert(0 <= i < q1.len() && q1[i] == id);
        if i != n {
            assert(q1[i] == q0[i]);
        }
        assert(q1.remove(n) =~= q0);
    } else {
        assert(q1 =~= seq![id]);
        assert(q1[0] == id);
        let i = v1.position(id);
        assert(0 <= i < q1.len() && q1[i] == id);
        assert(q1.remove(0) =~= Seq::<Seq<char>>::empty());
        assert(lv.insert(o.price, LevelView { queue: seq![id], head_set: true }).remove(o.price) =~= lv);
    }
    let v2 = v1.remove_order(id);
    assert(v2.orders =~= v.orders);
    assert(v2.levels(o.side) =~= lv);
    match o.side {
        Side::Buy => {
            assert(v2.bids =~= v.bids);
        },
        Side::Sell => {
            assert(v2.asks =~= v.asks);
        },
    }
}

proof fn lemma_rounds_conserve(v: BookView, o: Order, filled: u64, fuel: nat)
    requires
        filled <= o.quantity,
    ensures
        ({
            let r = v.match_rounds(o, filled, fuel);
            &&& r.1 == filled + traded_qty(r.2)
            &&& r.1 <= o.quantity
            &&& forall|i: int| 0 <= i < r.2.len() ==> fair_trade(o, #[trigger] r.2[i])
        }),
    decreases fuel,
{
    if fuel > 0 {
        match v.match_step(o, filled) {
            None => {},
            Some(step) => {
                lemma_rounds_conserve(step.0, o, step.1, (fuel - 1) as nat);
                let rest = step.0.match_rounds(o, step.1, (fuel - 1) as nat);
                let ts = seq![step.2] + rest.2;
                assert(ts.drop_first() =~= rest.2);
                assert(ts[0] == step.2);
                let p = v.best_price(o.side).unwrap();
                let id = v.levels(opposite(o.side))[p].queue[0];
                assert(step.2.price == v.orders[id].price);
                assert forall|i: int| 0 <= i < ts.len() implies fair_trade(o, #[trigger] ts[i]) by {
                    if i > 0 {
                        assert(ts[i] == rest.2[i - 1]);
                    }
                }
            },
        }
    }
}

/// Matching fills the incoming order by exactly the quantity it trades, never beyond the
/// order's quantity; every trade is at a price the order accepts (for a limit buy, at or
/// below its limit; for a limit sell, at or above it) and names the order and its symbol.
pub proof fn law_matching_conserves_quantity(v: BookView, o: Order)
    requires
        o.filled_qty <= o.quantity,
    ensures
        v.match_result(o).filled_qty == o.filled_qty + traded_qty(v.match_result(o).trades),
        v.match_result(o).filled_qty <= o.quantity,
        forall|i: int| 0 <= i < v.match_result(o).trades.len() ==> fair_trade(o, #[trigger] v.match_result(o).trades[i]),
{
    let fuel = (o.quantity + v.orders.dom().len()) as nat;
    lemma_rounds_conserve(v, o, o.filled_qty, fuel);
    let r = v.match_rounds(o, o.filled_qty, fuel);
    let out = v.match_result(o);
    assert(out.trades == r.2);
    assert(out.filled_qty == r.1);
}

/// A market order never rests in the book; a limit order that is not filled rests with
/// exactly what is left of it, and the book stays consistent either way.
pub proof fn law_what_rests_after_matching(v: BookView, o: Order)
    requires
        v.wf(),
        !v.orders.contains_key(o.order_id@),
    ensures
        ({
            let out = v.match_result(o);
            &&& o.order_type == OrderType::Market ==> !out.book.orders.contains_key(o.order_id@)
            &&& (o.order_type == OrderType::Limit && out.filled_qty < o.quantity) ==> {
                &&& out.book.orders.contains_key(o.order_id@)
                &&& out.book.orders[o.order_id@] == remainder(o, out.filled_qty)
                &&& out.book.orders[o.order_id@].qty == o.quantity - out.filled_qty
            }
            &&& (out.filled_qty >= o.quantity) ==> !out.book.orders.contains_key(o.order_id@)
        }),
{
    let fuel = (o.quantity + v.orders.dom().len()) as nat;
    lemma_rounds_wf(v, o, o.filled_qty, fuel);
}

/// Queuing an order adds its quantity to its own level's total and leaves every other
/// level's total as it was.
pub proof fn lemma_add_order_totals(v: BookView, o: RestingOrder, s: Side, p: u64)
    requires
        v.wf(),
        !v.orders.contains_key(o.order_id@),
    ensures
        v.add_order(o).level_total(s, p) == if s == o.side && p == o.price {
            v.level_total(s, p) + o.qty
        } else {
            v.level_total(s, p) as int
        },
{
    let id = o.order_id@;
    let v2 = v.add_order(o);
    let lv = v.levels(o.side);
    assert(v2.orders == v.orders.insert(id, o));
    assert(v2.levels(o.side) == lv.insert(o.price, if lv.contains_key(o.price) {
        lv[o.price].push(id)
    } else {
        LevelView { queue: seq![id], head_set: true }
    })) by {
        match o.side { Side::Buy => {}, Side::Sell => {} }
    }
    assert forall|x: Side| x != o.side implies #[trigger] v2.levels(x) == v.levels(x) by {
        match o.side { Side::Buy => {}, Side::Sell => {} }
    }
    if v.levels(s).contains_key(p) {
        assert(v.queue_ok(s, p));
        let q = v.levels(s)[p].queue;
        assert forall|i: int| 0 <= i < q.len() implies #[trigger] v.orders[q[i]].qty == v2.orders[q[i]].qty by {
            assert(v.rests_at(s, p, q[i]));
        }
        lemma_queue_total_frame(q, v.orders, v2.orders);
        if s == o.side && p == o.price {
            lemma_queue_total_push(q, id, v2.orders);
        }
    } else if s == o.side && p == o.price {
        lemma_queue_total_push(Seq::<Seq<char>>::empty(), id, v2.orders);
        assert(seq![id] =~= Seq::<Seq<char>>::empty().push(id));
    }
}

/// Matching leaves the incoming order's own side of the book as it was, but for the
/// remainder of an unfilled limit order, which joins the level at its price.
pub proof fn law_matching_leaves_own_side(v: BookView, o: Order, p: u64)
    requires
        v.wf(),
        !v.orders.contains_key(o.order_id@),
    ensures
        ({
            let out = v.match_result(o);
            let rests = o.order_type == OrderType::Limit && out.filled_qty < o.quantity;
            out.book.level_total(o.side, p) == if rests && p == o.price {
                v.level_total(o.side, p) + (o.quantity - out.filled_qty)
            } else {
                v.level_total(o.side, p) as int
            }
        }),
{
    let fuel = (o.quantity + v.orders.dom().len()) as nat;
    lemma_rounds_wf(v, o, o.filled_qty, fuel);
    let r = v.match_rounds(o, o.filled_qty, fuel);
    assert(r.0.level_total(o.side, p) == v.level_total(o.side, p));
    if o.order_type == OrderType::Limit && r.1 < o.quantity {
        assert(!r.0.orders.contains_key(o.order_id@));
        lemma_add_order_totals(r.0, remainder(o, r.1), o.side, p);
    }
}

/// Price `b` is no better for an order on side `taker` than price `a`: for a buyer, not
/// lower; for a seller, not higher.
pub open spec fn no_better(taker: Side, a: u64, b: u64) -> bool {
    match taker {
        Side::Buy => a <= b,
        Side::Sell => a >= b,
    }
}

#[verifier::spinoff_prover]
proof fn lemma_rounds_walk(v: BookView, o: Order, filled: u64, fuel: nat)
    requires
        v.wf(),
    ensures
        ({
            let ts = v.match_rounds(o, filled, fuel).2;
            &&& forall|i: int| 0 <= i < ts.len() ==> #[trigger] v.levels(opposite(o.side)).contains_key(ts[i].price)
            &&& forall|i: int, j: int| 0 <= i < j < ts.len() ==> no_better(o.side, ts[i].price, ts[j].price)
            &&& ts.len() > 0 ==> v.best_price(o.side) == Some(ts[0].price)
        }),
    decreases fuel,
{
    if fuel > 0 {
        match v.match_step(o, filled) {
            None => {},
            Some(step) => {
                lemma_step_wf(v, o, filled);
                let v2 = step.0;
                lemma_rounds_walk(v2, o, step.1, (fuel - 1) as nat);
                let rest = v2.match_rounds(o, step.1, (fuel - 1) as nat);
                let ts = seq![step.2] + rest.2;
                let lv = v.levels(opposite(o.side));
                let p = v.best_price(o.side).unwrap();
                let c = choose|x: u64| crate::book_model::is_best_price(lv, o.side, x);
                assert(crate::book_model::is_best_price(lv, o.side, c));
                assert(v.queue_ok(opposite(o.side), p));
                let id = lv[p].queue[0];
                assert(v.rests_at(opposite(o.side), p, id));
                assert(step.2.price == p);
                let ro = v.orders[id];
                let remain = (o.quantity - filled) as u64;
                let fq = if remain <= ro.qty { remain } else { ro.qty };
                let v1 = v.with_qty(id, (ro.qty - fq) as u64);
                lemma_model_with_qty_wf(v, id, (ro.qty - fq) as u64);
                assert(v1.levels(opposite(o.side)) == lv);
                // the opposite side only loses levels
                assert forall|x: u64| #[trigger] v2.levels(opposite(o.side)).contains_key(x) implies lv.contains_key(x) by {
                    if ro.qty == fq {
                        lemma_model_position(v1, id);
                        assert(v1.orders[id].side == opposite(o.side));
                        match opposite(o.side) { Side::Buy => {}, Side::Sell => {} }
                    }
                }
                assert forall|i: int| 0 <= i < ts.len() implies #[trigger] lv.contains_key(ts[i].price) by {
                    if i > 0 {
                        assert(ts[i] == rest.2[i - 1]);
                        assert(v2.levels(opposite(o.side)).contains_key(rest.2[i - 1].price));
                    }
                }
                assert forall|i: int, j: int| 0 <= i < j < ts.len() implies no_better(o.side, ts[i].price, ts[j].price) by {
                    assert(lv.contains_key(ts[j].price));
                    if i > 0 {
                        assert(ts[i] == rest.2[i - 1]);
                        assert(ts[j] == rest.2[j - 1]);
                    }
                }
            },
        }
    }
}

/// Matching walks the book from the best price outwards: the first trade is at the best
/// price the book offered, and each later trade is at a price no better than the one
/// before; every trade is at a price where the book had a level.
pub proof fn law_matching_walks_the_book(v: BookView, o: Order)
    requires
        v.wf(),
    ensures
        ({
            let ts = v.match_result(o).trades;
            &&& forall|i: int| 0 <= i < ts.len() ==> #[trigger] v.levels(opposite(o.side)).contains_key(ts[i].price)
            &&& forall|i: int, j: int| 0 <= i < j < ts.len() ==> no_better(o.side, ts[i].price, ts[j].price)
            &&& ts.len() > 0 ==> v.best_price(o.side) == Some(ts[0].price)
        }),
{
    let fuel = (o.quantity + v.orders.dom().len()) as nat;
    lemma_rounds_walk(v, o, o.filled_qty, fuel);
    assert(v.match_result(o).trades == v.match_rounds(o, o.filled_qty, fuel).2);
}

/// No bid is at or above an ask: every bid price is below every ask price.
pub open spec fn uncrossed(v: BookView) -> bool {
    forall|b: u64, a: u64| #[trigger] v.bids.contains_key(b) && #[trigger] v.asks.contains_key(a) ==> b < a
}

/// Matching `o` against `v` leaves part of a limit order unfilled and stops at a best
/// opposite level that no longer records its front order, at a price the order accepts:
/// the remainder then rests at a price that meets the other side.
pub open spec fn rests_across_unrecorded_front(v: BookView, o: Order) -> bool {
    let r = v.match_rounds(o, o.filled_qty, (o.quantity + v.orders.dom().len()) as nat);
    &&& o.order_type == OrderType::Limit
    &&& r.1 < o.quantity
    &&& r.0.best_price(o.side) is Some
    &&& !r.0.levels(opposite(o.side))[r.0.best_price(o.side).unwrap()].head_set
    &&& accepts_price(o, r.0.best_price(o.side).unwrap())
}

/// A side with some level has a best price.
proof fn lemma_best_price_exists(lv: Map<u64, LevelView>, taker: Side)
    requires
        lv.dom().finite(),
        lv.dom().len() > 0,
    ensures
        exists|p: u64| is_best_price(lv, taker, p),
    decreases lv.dom().len(),
{
    let c = lv.dom().choose();
    assert(lv.contains_key(c));
    let rest = lv.remove(c);
    assert(rest.dom() =~= lv.dom().remove(c));
    if rest.dom().len() == 0 {
        assert forall|k: u64| #[trigger] lv.contains_key(k) implies k == c by {
            if k != c {
                assert(rest.dom().contains(k));
            }
        }
        assert(is_best_price(lv, taker, c));
    } else {
        lemma_best_price_exists(rest, taker);
        let q = choose|p: u64| is_best_price(rest, taker, p);
        assert(is_best_price(rest, taker, q));
        let better = match taker {
            Side::Buy => if c <= q { c } else { q },
            Side::Sell => if c >= q { c } else { q },
        };
        assert forall|k: u64| #[trigger] lv.contains_key(k) implies (match taker {
            Side::Buy => better <= k,
            Side::Sell => k <= better,
        }) by {
            if k != c {
                assert(rest.contains_key(k));
            }
        }
        assert(is_best_price(lv, taker, better));
    }
}

/// Matching rounds keep the incoming order's side as it was and only take levels away
/// from the other side.
proof fn lemma_rounds_sides(v: BookView, o: Order, filled: u64, fuel: nat)
    requires
        v.wf(),
    ensures
        ({
            let w = v.match_rounds(o, filled, fuel).0;
            &&& w.wf()
            &&& w.levels(o.side) == v.levels(o.side)
            &&& forall|x: u64| #[trigger] w.levels(opposite(o.side)).contains_key(x)
                ==> v.levels(opposite(o.side)).contains_key(x)
        }),
    decreases fuel,
{
    if fuel > 0 {
        match v.match_step(o, filled) {
            None => {},
            Some(step) => {
                lemma_step_wf(v, o, filled);
                lemma_rounds_sides(step.0, o, step.1, (fuel - 1) as nat);
            },
        }
    }
}

/// With enough fuel, matching rounds run until a round would stop.
proof fn lemma_rounds_stop(v: BookView, o: Order, filled: u64, fuel: nat)
    requires
        v.wf(),
        fuel >= o.quantity - filled + v.orders.dom().len(),
    ensures
        ({
            let r = v.match_rounds(o, filled, fuel);
            r.0.match_step(o, r.1) is None
        }),
    decreases fuel,
{
    if fuel > 0 {
        match v.match_step(o, filled) {
            None => {},
            Some(step) => {
                lemma_step_wf(v, o, filled);
                let lv = v.levels(opposite(o.side));
                let p = v.best_price(o.side).unwrap();
                let c = choose|x: u64| is_best_price(lv, o.side, x);
                assert(is_best_price(lv, o.side, c));
                assert(v.queue_ok(opposite(o.side), p));
                let id = lv[p].queue[0];
                assert(v.rests_at(opposite(o.side), p, id));
                let ro = v.orders[id];
                let remain = (o.quantity - filled) as u64;
                let fq = if remain <= ro.qty { remain } else { ro.qty };
                let v1 = v.with_qty(id, (ro.qty - fq) as u64);
                lemma_model_with_qty_wf(v, id, (ro.qty - fq) as u64);
                if ro.qty == fq {
                    lemma_model_remove_wf(v1, id);
                    assert(step.0.orders.dom() =~= v.orders.dom().remove(id));
                } else {
                    assert(step.0 == v1);
                }
                lemma_rounds_stop(step.0, o, step.1, (fuel - 1) as nat);
            },
        }
    }
}

/// Matching keeps a book uncrossed, every bid below every ask, but for one case: a limit
/// order that is not filled, where matching stopped at a best opposite level that no
/// longer records its front order (its front order was filled and taken out while others
/// wait behind it) at a price the order accepts. Then, and only then, the remainder rests
/// at a price that meets the other side.
pub proof fn law_matching_keeps_book_uncrossed(v: BookView, o: Order)
    requires
        v.wf(),
        uncrossed(v),
    ensures
        uncrossed(v.match_result(o).book) <==> !rests_across_unrecorded_front(v, o),
{
    let fuel = (o.quantity + v.orders.dom().len()) as nat;
    lemma_rounds_sides(v, o, o.filled_qty, fuel);
    lemma_rounds_stop(v, o, o.filled_qty, fuel);
    let r = v.match_rounds(o, o.filled_qty, fuel);
    let w = r.0;
    let t = opposite(o.side);
    let out = v.match_result(o);
    assert(uncrossed(w)) by {
        assert forall|b: u64, a: u64| #[trigger] w.bids.contains_key(b) && #[trigger] w.asks.contains_key(a)
            implies b < a by {
            match o.side {
                Side::Buy => {
                    assert(w.levels(t).contains_key(a));
                },
                Side::Sell => {
                    assert(w.levels(t).contains_key(b));
                },
            }
        }
    }
    if o.order_type == OrderType::Limit && r.1 < o.quantity {
        let rem = remainder(o, r.1);
        assert(out.book == w.add_order(rem));
        let lw = w.levels(o.side);
        assert(out.book.levels(t) == w.levels(t) && out.book.levels(o.side).dom() =~= lw.dom().insert(o.price)) by {
            match o.side { Side::Buy => {}, Side::Sell => {} }
        }
        match w.best_price(o.side) {
            None => {
                if w.levels(t).dom().len() > 0 {
                    lemma_best_price_exists(w.levels(t), o.side);
                }
                assert forall|x: u64| !#[trigger] w.levels(t).contains_key(x) by {
                    if w.levels(t).contains_key(x) {
                        assert(w.levels(t).dom().len() > 0);
                    }
                }
                assert(!rests_across_unrecorded_front(v, o));
                assert forall|b: u64, a: u64| #[trigger] out.book.bids.contains_key(b) && #[trigger] out.book.asks.contains_key(a)
                    implies b < a by {
                    match o.side {
                        Side::Buy => { assert(w.levels(t).contains_key(a)); },
                        Side::Sell => { assert(w.levels(t).contains_key(b)); },
                    }
                }
            },
            Some(p) => {
                let c = choose|x: u64| is_best_price(w.levels(t), o.side, x);
                assert(is_best_price(w.levels(t), o.side, c));
                assert(w.levels(t).contains_key(p));
                let l = w.levels(t)[p];
                if l.head_set {
                    assert(w.queue_ok(t, p));
                    assert(w.rests_at(t, p, l.queue[0]));
                    assert(!accepts_price(o, p));
                    assert(!rests_across_unrecorded_front(v, o));
                    assert forall|b: u64, a: u64| #[trigger] out.book.bids.contains_key(b) && #[trigger] out.book.asks.contains_key(a)
                        implies b < a by {
                        match o.side {
                            Side::Buy => {
                                assert(w.levels(t).contains_key(a));
                                if b != o.price {
                                    assert(w.bids.contains_key(b));
                                }
                            },
                            Side::Sell => {
                                assert(w.levels(t).contains_key(b));
                                if a != o.price {
                                    assert(w.asks.contains_key(a));
                                }
                            },
                        }
                    }
                } else if accepts_price(o, p) {
                    assert(rests_across_unrecorded_front(v, o));
                    match o.side {
                        Side::Buy => {
                            assert(out.book.bids.contains_key(o.price) && out.book.asks.contains_key(p));
                        },
                        Side::Sell => {
                            assert(out.book.bids.contains_key(p) && out.book.asks.contains_key(o.price));
                        },
                    }
                } else {
                    assert(!rests_across_unrecorded_front(v, o));
                    assert forall|b: u64, a: u64| #[trigger] out.book.bids.contains_key(b) && #[trigger] out.book.asks.contains_key(a)
                        implies b < a by {
                        match o.side {
                            Side::Buy => {
                                assert(w.levels(t).contains_key(a));
                                if b != o.price {
                                    assert(w.bids.contains_key(b));
                                }
                            },
                            Side::Sell => {
                                assert(w.levels(t).contains_key(b));
                                if a != o.price {
                                    assert(w.asks.contains_key(a));
                                }
                            },
                        }
                    }
                }
            },
        }
    } else {
        assert(out.book == w);
        assert(!rests_across_unrecorded_front(v, o));
    }
}

/// Some trade names `k` as its maker.
pub open spec fn made_by(ts: Seq<TradeTerms>, k: Seq<char>) -> bool {
    exists|i: int| 0 <= i < ts.len() && #[trigger] ts[i].maker_order_id == k
}

/// Trade `t` took its quantity from its maker: the maker rested in `v` with at least that
/// much, and in `w` it rests with that much less, or is gone where that was all it had.
pub open spec fn maker_gave(v: BookView, w: BookView, t: TradeTerms) -> bool {
    let k = t.maker_order_id;
    &&& v.orders.contains_key(k)
    &&& v.orders[k].qty >= t.quantity
    &&& if w.orders.contains_key(k) {
        w.orders[k] == RestingOrder { qty: (v.orders[k].qty - t.quantity) as u64, ..v.orders[k] }
    } else {
        v.orders[k].qty == t.quantity
    }
}

proof fn lemma_rounds_makers(v: BookView, o: Order, filled: u64, fuel: nat)
    requires
        v.wf(),
        filled <= o.quantity,
    ensures
        ({
            let r = v.match_rounds(o, filled, fuel);
            &&& forall|i: int, j: int| 0 <= i < j < r.2.len() ==> r.2[i].maker_order_id != r.2[j].maker_order_id
            &&& forall|i: int| 0 <= i < r.2.len() ==> maker_gave(v, r.0, #[trigger] r.2[i])
            &&& forall|k: Seq<char>| #[trigger] v.orders.contains_key(k) && !made_by(r.2, k)
                ==> r.0.orders.contains_key(k) && r.0.orders[k] == v.orders[k]
        }),
    decreases fuel,
{
    if fuel > 0 {
        match v.match_step(o, filled) {
            None => {},
            Some(step) => {
                lemma_step_wf(v, o, filled);
                let v2 = step.0;
                let f2 = step.1;
                let t = step.2;
                lemma_rounds_makers(v2, o, f2, (fuel - 1) as nat);
                lemma_rounds_wf(v2, o, f2, (fuel - 1) as nat);
                let rest = v2.match_rounds(o, f2, (fuel - 1) as nat);
                let ts = seq![t] + rest.2;
                let w = rest.0;
                let p = v.best_price(o.side).unwrap();
                let id = v.levels(opposite(o.side))[p].queue[0];
                let ro = v.orders[id];
                let remain = (o.quantity - filled) as u64;
                let fq = if remain <= ro.qty { remain } else { ro.qty };
                let v1 = v.with_qty(id, (ro.qty - fq) as u64);
                // the front order rests in the book under its own id
                let lv = v.levels(opposite(o.side));
                let c = choose|x: u64| crate::book_model::is_best_price(lv, o.side, x);
                assert(crate::book_model::is_best_price(lv, o.side, c));
                assert(v.queue_ok(opposite(o.side), p));
                assert(v.rests_at(opposite(o.side), p, id));
                assert(t.maker_order_id == id);
                lemma_model_with_qty_wf(v, id, (ro.qty - fq) as u64);
                let removed = ro.qty == fq;
                if removed {
                    lemma_model_remove_wf(v1, id);
                    assert(!v2.orders.contains_key(id));
                } else {
                    assert(v2 == v1);
                    assert(f2 == o.quantity);
                    assert(v2.match_step(o, f2) is None);
                    assert(rest.2.len() == 0);
                    assert(w == v2);
                }
                // every order but the front one is as it was after this round
                assert forall|k: Seq<char>| k != id && #[trigger] v.orders.contains_key(k)
                    implies v2.orders.contains_key(k) && v2.orders[k] == v.orders[k] by {
                    assert(v1.orders[k] == v.orders[k]);
                }
                assert forall|i: int, j: int| 0 <= i < j < ts.len() implies ts[i].maker_order_id != ts[j].maker_order_id by {
                    if i == 0 {
                        assert(ts[j] == rest.2[j - 1]);
                        assert(maker_gave(v2, w, rest.2[j - 1]));
                    } else {
                        assert(ts[i] == rest.2[i - 1]);
                        assert(ts[j] == rest.2[j - 1]);
                    }
                }
                assert forall|i: int| 0 <= i < ts.len() implies maker_gave(v, w, #[trigger] ts[i]) by {
                    if i == 0 {
                        assert(ts[0] == t);
                        if removed {
                            assert(!w.orders.contains_key(id));
                        }
                    } else {
                        let t2 = rest.2[i - 1];
                        assert(ts[i] == t2);
                        assert(maker_gave(v2, w, t2));
                        let k2 = t2.maker_order_id;
                        assert(v2.orders.contains_key(k2));
                        if k2 == id {
                            assert(removed);
                        }
                        assert(v2.orders[k2] == v.orders[k2]);
                    }
                }
                assert forall|k: Seq<char>| #[trigger] v.orders.contains_key(k) && !made_by(ts, k)
                    implies w.orders.contains_key(k) && w.orders[k] == v.orders[k] by {
                    assert(ts[0].maker_order_id == id);
                    assert(k != id);
                    assert(!made_by(rest.2, k)) by {
                        if made_by(rest.2, k) {
                            let i = choose|i: int| 0 <= i < rest.2.len() && #[trigger] rest.2[i].maker_order_id == k;
                            assert(ts[i + 1] == rest.2[i]);
                        }
                    }
                }
            },
        }
    }
}

/// Matching takes from the resting orders exactly what it trades: each resting order
/// trades at most once, gives up the traded quantity (leaving the book where that was
/// all it had), and every resting order that does not trade stays as it was.
pub proof fn law_matching_takes_from_makers(v: BookView, o: Order)
    requires
        v.wf(),
        !v.orders.contains_key(o.order_id@),
        o.filled_qty <= o.quantity,
    ensures
        ({
            let out = v.match_result(o);
            &&& forall|i: int, j: int| 0 <= i < j < out.trades.len()
                ==> out.trades[i].maker_order_id != out.trades[j].maker_order_id
            &&& forall|i: int| 0 <= i < out.trades.len() ==> maker_gave(v, out.book, #[trigger] out.trades[i])
            &&& forall|k: Seq<char>| #[trigger] v.orders.contains_key(k) && !made_by(out.trades, k)
                ==> out.book.orders.contains_key(k) && out.book.orders[k] == v.orders[k]
        }),
{
    let fuel = (o.quantity + v.orders.dom().len()) as nat;
    lemma_rounds_makers(v, o, o.filled_qty, fuel);
    lemma_rounds_wf(v, o, o.filled_qty, fuel);
    let r = v.match_rounds(o, o.filled_qty, fuel);
    let out = v.match_result(o);
    assert(out.trades == r.2);
    if o.order_type == OrderType::Limit && r.1 < o.quantity {
        let rem = remainder(o, r.1);
        let id = o.order_id@;
        assert(!r.0.orders.contains_key(id));
        assert(out.book.orders == r.0.orders.insert(id, rem));
        assert forall|i: int| 0 <= i < out.trades.len() implies maker_gave(v, out.book, #[trigger] out.trades[i]) by {
            assert(maker_gave(v, r.0, r.2[i]));
            assert(r.2[i].maker_order_id != id);
        }
    } else {
        assert(out.book == r.0);
    }
}

/// Trade `t` of an incoming order `o` names its buyer and seller by side: the taker `o`
/// is the buyer when it buys and the seller when it sells, and the resting order `maker`
/// is the other party.
pub open spec fn names_parties(o: Order, maker: RestingOrder, t: TradeTerms) -> bool {
    match o.side {
        Side::Buy => t.buy_user_id == o.user_id@ && t.sell_user_id == maker.user_id@,
        Side::Sell => t.sell_user_id == o.user_id@ && t.buy_user_id == maker.user_id@,
    }
}

proof fn lemma_rounds_parties(v: BookView, o: Order, filled: u64, fuel: nat)
    requires
        v.wf(),
    ensures
        ({
            let ts = v.match_rounds(o, filled, fuel).2;
            forall|i: int| 0 <= i < ts.len() ==> {
                &&& v.orders.contains_key(#[trigger] ts[i].maker_order_id)
                &&& names_parties(o, v.orders[ts[i].maker_order_id], ts[i])
            }
        }),
    decreases fuel,
{
    if fuel > 0 {
        match v.match_step(o, filled) {
            None => {},
            Some(step) => {
                lemma_step_wf(v, o, filled);
                let v2 = step.0;
                lemma_rounds_parties(v2, o, step.1, (fuel - 1) as nat);
                let rest = v2.match_rounds(o, step.1, (fuel - 1) as nat);
                let ts = seq![step.2] + rest.2;
                let lv = v.levels(opposite(o.side));
                let p = v.best_price(o.side).unwrap();
                let c = choose|x: u64| is_best_price(lv, o.side, x);
                assert(is_best_price(lv, o.side, c));
                assert(v.queue_ok(opposite(o.side), p));
                let id = lv[p].queue[0];
                assert(v.rests_at(opposite(o.side), p, id));
                let ro = v.orders[id];
                let remain = (o.quantity - filled) as u64;
                let fq = if remain <= ro.qty { remain } else { ro.qty };
                let v1 = v.with_qty(id, (ro.qty - fq) as u64);
                lemma_model_with_qty_wf(v, id, (ro.qty - fq) as u64);
                if ro.qty == fq {
                    lemma_model_remove_wf(v1, id);
                }
                // what stays in the book keeps its user
                assert forall|k: Seq<char>| #[trigger] v2.orders.contains_key(k)
                    implies v.orders.contains_key(k) && v2.orders[k].user_id == v.orders[k].user_id by {
                }
                assert(step.2.maker_order_id == id);
                assert forall|i: int| 0 <= i < ts.len() implies {
                    &&& v.orders.contains_key(#[trigger] ts[i].maker_order_id)
                    &&& names_parties(o, v.orders[ts[i].maker_order_id], ts[i])
                } by {
                    if i > 0 {
                        assert(ts[i] == rest.2[i - 1]);
                        assert(v2.orders.contains_key(rest.2[i - 1].maker_order_id));
                    }
                }
            },
        }
    }
}

/// Every trade of a match names the incoming order's user as the buyer when it buys and
/// as the seller when it sells, market and limit orders alike, and names the user of the
/// resting order it traded with, which rested in the book before, as the other party.
pub proof fn law_trades_name_buyer_and_seller(v: BookView, o: Order)
    requires
        v.wf(),
    ensures
        ({
            let ts = v.match_result(o).trades;
            forall|i: int| 0 <= i < ts.len() ==> {
                &&& v.orders.contains_key(#[trigger] ts[i].maker_order_id)
                &&& names_parties(o, v.orders[ts[i].maker_order_id], ts[i])
            }
        }),
{
    let fuel = (o.quantity + v.orders.dom().len()) as nat;
    lemma_rounds_parties(v, o, o.filled_qty, fuel);
    assert(v.match_result(o).trades == v.match_rounds(o, o.filled_qty, fuel).2);
}

/// The status after matching follows from what was filled: an order filled to its
/// quantity is `Filled`, however many trades filled it and of whatever sizes; an unfilled
/// market order is `Cancelled`; an unfilled limit order that traded is `PartiallyFilled`.
pub proof fn law_status_follows_filled_quantity(v: BookView, o: Order)
    ensures
        ({
            let out = v.match_result(o);
            &&& out.filled_qty >= o.quantity ==> out.status == OrderStatus::Filled
            &&& (out.filled_qty < o.quantity && o.order_type == OrderType::Market) ==> out.status == OrderStatus::Cancelled
            &&& (out.filled_qty < o.quantity && o.order_type == OrderType::Limit && out.trades.len() > 0)
                ==> out.status == OrderStatus::PartiallyFilled
        }),
{
}

/// A market order takes whatever price the book offers: where it is left unfilled, the
/// book has no opposite level it could still trade with, either none at all or a best one
/// that no longer records its front order. Its price field plays no part.
pub proof fn law_market_orders_take_any_price(v: BookView, o: Order)
    requires
        v.wf(),
        o.order_type == OrderType::Market,
    ensures
        ({
            let out = v.match_result(o);
            out.filled_qty < o.quantity ==> match out.book.best_price(o.side) {
                None => true,
                Some(p) => !out.book.levels(opposite(o.side))[p].head_set,
            }
        }),
{
    let fuel = (o.quantity + v.orders.dom().len()) as nat;
    lemma_rounds_sides(v, o, o.filled_qty, fuel);
    lemma_rounds_stop(v, o, o.filled_qty, fuel);
    let r = v.match_rounds(o, o.filled_qty, fuel);
    let w = r.0;
    assert(v.match_result(o).book == w);
    if r.1 < o.quantity {
        match w.best_price(o.side) {
            None => {},
            Some(p) => {
                let t = opposite(o.side);
                let c = choose|x: u64| is_best_price(w.levels(t), o.side, x);
                assert(is_best_price(w.levels(t), o.side, c));
                if w.levels(t)[p].head_set {
                    assert(w.queue_ok(t, p));
                    assert(accepts_price(o, w.orders[w.levels(t)[p].queue[0]].price));
                    assert(w.match_step(o, r.1) is Some);
                }
            },
        }
    }
}

/// Locking funds and then releasing the same amount gives the balance back, where the
/// lock was granted and no pool reached the largest `u64`.
pub proof fn law_release_undoes_lock(bals: Balances, u: Seq<char>, s: Seq<char>, amount: u64)
    requires
        covers(balance_of(bals, u, s), BalancePool::Available, amount),
        balance_of(bals, u, s).locked + amount <= u64::MAX,
    ensures
        release_model(
            add_model(deduct_model(bals, u, s, amount, BalancePool::Available), u, s, amount, BalancePool::Locked),
            u,
            s,
            amount,
        ) == with_balance(bals, u, s, balance_of(bals, u, s)),
{
    let b = balance_of(bals, u, s);
    let b1 = deduct_model(bals, u, s, amount, BalancePool::Available);
    let b2 = add_model(b1, u, s, amount, BalancePool::Locked);
    assert(balance_of(b1, u, s).available == b.available - amount);
    assert(balance_of(b2, u, s).locked == b.locked + amount);
    let r = release_model(b2, u, s, amount);
    assert(r =~= with_balance(bals, u, s, b)) by {
        assert(r[u] =~= with_balance(bals, u, s, b)[u]);
    }
}

/// Locking funds for an order moves them between pools without changing what the user
/// holds of the asset, where the lock is granted and the locked pool does not reach the
/// largest `u64`.
pub proof fn law_lock_keeps_holdings(bals: Balances, u: Seq<char>, s: Seq<char>, amount: u64)
    requires
        covers(balance_of(bals, u, s), BalancePool::Available, amount),
        balance_of(bals, u, s).locked + amount <= u64::MAX,
    ensures
        ({
            let before = balance_of(bals, u, s);
            let after = balance_of(
                add_model(deduct_model(bals, u, s, amount, BalancePool::Available), u, s, amount, BalancePool::Locked),
                u,
                s,
            );
            &&& after.available + after.locked == before.available + before.locked
            &&& after.locked == before.locked + amount
        }),
{
}

/// Locking funds for an order moves them between the two pools of one balance and
/// nothing else: whatever the outcome (locked, refused for short funds, refused for a bad
/// symbol), every user holds as much of every asset as before, both pools together, where
/// a granted lock keeps the locked pool within `u64`.
pub proof fn law_locking_keeps_every_holding(
    bals: Balances,
    u: Seq<char>,
    symbol: Seq<char>,
    side: Side,
    price: u64,
    quantity: u64,
    v: Seq<char>,
    t: Seq<char>,
)
    requires
        symbol_parts(symbol) matches Some(parts) ==> {
            let asset = reservation(side, parts.0, parts.1, price, quantity).0;
            let amount = reservation(side, parts.0, parts.1, price, quantity).1;
            balance_of(bals, u, asset).available >= amount ==> balance_of(bals, u, asset).locked + amount <= u64::MAX
        },
    ensures
        holding(lock_model(bals, u, symbol, side, price, quantity), v, t) == holding(bals, v, t),
{
    match symbol_parts(symbol) {
        None => {},
        Some(parts) => {
            let asset = reservation(side, parts.0, parts.1, price, quantity).0;
            let amount = reservation(side, parts.0, parts.1, price, quantity).1;
            let b = balance_of(bals, u, asset);
            let d = deduct_model(bals, u, asset, amount, BalancePool::Available);
            let nd = if b.available >= amount { debited(b, BalancePool::Available, amount) } else { b };
            lemma_balance_of_with(bals, u, asset, nd, v, t);
            if b.available >= amount {
                lemma_balance_of_with(d, u, asset, credited(balance_of(d, u, asset), BalancePool::Locked, amount), v, t);
                lemma_balance_of_with(bals, u, asset, nd, u, asset);
            }
        },
    }
}

/// A debit followed by a credit of the same amount to the same pool gives the balance
/// back, where the debit was granted.
pub proof fn law_add_undoes_deduct(bals: Balances, u: Seq<char>, s: Seq<char>, amount: u64, pool: BalancePool)
    requires
        covers(balance_of(bals, u, s), pool, amount),
    ensures
        add_model(deduct_model(bals, u, s, amount, pool), u, s, amount, pool)
            == with_balance(bals, u, s, balance_of(bals, u, s)),
{
    let b = balance_of(bals, u, s);
    let r = add_model(deduct_model(bals, u, s, amount, pool), u, s, amount, pool);
    assert(r =~= with_balance(bals, u, s, b)) by {
        assert(r[u] =~= with_balance(bals, u, s, b)[u]);
    }
}

/// What a user holds of an asset, both pools together.
pub open spec fn holding(bals: Balances, u: Seq<char>, s: Seq<char>) -> int {
    balance_of(bals, u, s).available + balance_of(bals, u, s).locked
}

/// A trade moves funds and creates none: where the buyer's locked quote covers the cost,
/// the seller's locked base covers the quantity, and no credited pool reaches the largest
/// `u64`, the buyer and the seller together hold as much of each asset as before; where
/// one user trades with itself, that user holds as much of each asset as before.
pub proof fn law_settlement_conserves(
    bals: Balances,
    base: Seq<char>,
    quote: Seq<char>,
    price: u64,
    quantity: u64,
    buyer: Seq<char>,
    seller: Seq<char>,
)
    requires
        base != quote,
        quantity * price <= u64::MAX,
        balance_of(bals, buyer, quote).locked >= quantity * price,
        balance_of(bals, seller, base).locked >= quantity,
        balance_of(bals, buyer, base).available + quantity <= u64::MAX,
        balance_of(bals, seller, quote).available + quantity * price <= u64::MAX,
    ensures
        ({
            let after = settle_model(bals, base, quote, price, quantity, buyer, seller);
            &&& holding(after, buyer, base) + holding(after, seller, base) == holding(bals, buyer, base)
                + holding(bals, seller, base)
            &&& holding(after, buyer, quote) + holding(after, seller, quote) == holding(bals, buyer, quote)
                + holding(bals, seller, quote)
        }),
{
    let paying = (quantity * price) as u64;
    let b1 = deduct_model(bals, buyer, quote, paying, BalancePool::Locked);
    let b2 = add_model(b1, buyer, base, quantity, BalancePool::Available);
    let b3 = add_model(b2, seller, quote, paying, BalancePool::Available);
    let b4 = deduct_model(b3, seller, base, quantity, BalancePool::Locked);
    assert(balance_of(b1, buyer, quote).locked == balance_of(bals, buyer, quote).locked - paying);
    assert(balance_of(b1, buyer, base) == balance_of(bals, buyer, base));
    if buyer == seller {
        assert(balance_of(b1, buyer, quote).available == balance_of(bals, buyer, quote).available);
        assert(balance_of(b2, buyer, base).available == balance_of(bals, buyer, base).available + quantity);
        assert(balance_of(b2, buyer, quote) == balance_of(b1, buyer, quote));
        assert(balance_of(b3, buyer, quote).available == balance_of(b2, buyer, quote).available + paying);
        assert(balance_of(b3, buyer, quote).locked == balance_of(b2, buyer, quote).locked);
        assert(balance_of(b3, buyer, base) == balance_of(b2, buyer, base));
        assert(balance_of(b4, buyer, base).locked == balance_of(b3, buyer, base).locked - quantity);
        assert(balance_of(b4, buyer, base).available == balance_of(b3, buyer, base).available);
        assert(balance_of(b4, buyer, quote) == balance_of(b3, buyer, quote));
    } else {
        assert(balance_of(b1, seller, base) == balance_of(bals, seller, base));
        assert(balance_of(b1, seller, quote) == balance_of(bals, seller, quote));
        assert(balance_of(b2, buyer, base).available == balance_of(bals, buyer, base).available + quantity);
        assert(balance_of(b2, buyer, quote) == balance_of(b1, buyer, quote));
        assert(balance_of(b2, seller, base) == balance_of(b1, seller, base));
        assert(balance_of(b2, seller, quote) == balance_of(b1, seller, quote));
        assert(balance_of(b3, seller, quote).available == balance_of(bals, seller, quote).available + paying);
        assert(balance_of(b3, buyer, base) == balance_of(b2, buyer, base));
        assert(balance_of(b3, buyer, quote) == balance_of(b2, buyer, quote));
        assert(balance_of(b3, seller, base) == balance_of(b2, seller, base));
        assert(balance_of(b4, seller, base).locked == balance_of(bals, seller, base).locked - quantity);
        assert(balance_of(b4, buyer, base) == balance_of(b3, buyer, base));
        assert(balance_of(b4, buyer, quote) == balance_of(b3, buyer, quote));
        assert(balance_of(b4, seller, quote) == balance_of(b3, seller, quote));
    }
}

/// What the users in `users` hold of asset `x`, all together.
pub open spec fn users_total(users: Set<Seq<char>>, bals: Balances, x: Seq<char>) -> int
    decreases users.len(),
    when users.finite()
{
    if users.len() == 0 {
        0
    } else {
        let u = users.choose();
        holding(bals, u, x) + users_total(users.remove(u), bals, x)
    }
}

/// What all users hold of asset `x`, both pools together.
pub open spec fn asset_total(bals: Balances, x: Seq<char>) -> int {
    users_total(bals.dom(), bals, x)
}

proof fn lemma_users_total_remove(users: Set<Seq<char>>, bals: Balances, x: Seq<char>, u: Seq<char>)
    requires
        users.finite(),
        users.contains(u),
    ensures
        users_total(users, bals, x) == holding(bals, u, x) + users_total(users.remove(u), bals, x),
    decreases users.len(),
{
    assert(users.len() != 0);
    let c = users.choose();
    if c != u {
        lemma_users_total_remove(users.remove(c), bals, x, u);
        lemma_users_total_remove(users.remove(u), bals, x, c);
        assert(users.remove(c).remove(u) =~= users.remove(u).remove(c));
    }
}

proof fn lemma_users_total_frame(users: Set<Seq<char>>, b1: Balances, b2: Balances, x: Seq<char>)
    requires
        users.finite(),
        forall|v: Seq<char>| #[trigger] users.contains(v) ==> holding(b1, v, x) == holding(b2, v, x),
    ensures
        users_total(users, b1, x) == users_total(users, b2, x),
    decreases users.len(),
{
    if users.len() != 0 {
        let c = users.choose();
        assert(users.contains(c));
        lemma_users_total_frame(users.remove(c), b1, b2, x);
    }
}

/// Setting one entry changes what its user holds of that asset and nothing else.
proof fn lemma_with_balance_holding(bals: Balances, u: Seq<char>, s: Seq<char>, b: SymbolBalance, v: Seq<char>, x: Seq<char>)
    ensures
        holding(with_balance(bals, u, s, b), v, x) == if v == u && s == x {
            b.available + b.locked
        } else {
            holding(bals, v, x)
        },
        with_balance(bals, u, s, b).dom() == bals.dom().insert(u),
{
    let m = with_user(bals, u);
    assert(m.dom() =~= bals.dom().insert(u));
    assert(with_balance(bals, u, s, b).dom() =~= bals.dom().insert(u));
    if v == u && s != x {
        assert(balance_of(with_balance(bals, u, s, b), v, x) == balance_of(bals, v, x));
    }
}

/// Setting one entry changes the total of that asset by the change in its holding, and
/// leaves the totals of other assets as they were.
proof fn lemma_with_balance_total(bals: Balances, u: Seq<char>, s: Seq<char>, b: SymbolBalance, x: Seq<char>)
    requires
        bals.dom().finite(),
    ensures
        with_balance(bals, u, s, b).dom().finite(),
        asset_total(with_balance(bals, u, s, b), x) == asset_total(bals, x) + if s == x {
            b.available + b.locked - holding(bals, u, x)
        } else {
            0
        },
{
    let b2 = with_balance(bals, u, s, b);
    let d1 = bals.dom();
    lemma_with_balance_holding(bals, u, s, b, u, x);
    assert(b2.dom() == d1.insert(u));
    assert(d1.insert(u).remove(u) =~= d1.remove(u));
    lemma_users_total_remove(b2.dom(), b2, x, u);
    assert forall|v: Seq<char>| #[trigger] d1.remove(u).contains(v) implies holding(b2, v, x) == holding(bals, v, x) by {
        lemma_with_balance_holding(bals, u, s, b, v, x);
    }
    lemma_users_total_frame(d1.remove(u), b2, bals, x);
    if d1.contains(u) {
        lemma_users_total_remove(d1, bals, x, u);
    } else {
        assert(d1.remove(u) =~= d1);
        assert(holding(bals, u, x) == 0);
    }
}

/// Reading a balance after one entry is set: that entry where it was set, the old balance
/// elsewhere.
proof fn lemma_balance_of_with(bals: Balances, u: Seq<char>, s: Seq<char>, b: SymbolBalance, v: Seq<char>, t: Seq<char>)
    ensures
        balance_of(with_balance(bals, u, s, b), v, t) == if v == u && t == s {
            b
        } else {
            balance_of(bals, v, t)
        },
{
}

/// A granted debit takes its amount off the total of its asset and changes one entry.
proof fn lemma_deduct_step(bals: Balances, u: Seq<char>, s: Seq<char>, amount: u64, pool: BalancePool, x: Seq<char>)
    requires
        bals.dom().finite(),
        covers(balance_of(bals, u, s), pool, amount),
    ensures
        deduct_model(bals, u, s, amount, pool).dom().finite(),
        asset_total(deduct_model(bals, u, s, amount, pool), x) == asset_total(bals, x) - if s == x {
            amount as int
        } else {
            0
        },
        forall|v: Seq<char>, t: Seq<char>| #[trigger] balance_of(deduct_model(bals, u, s, amount, pool), v, t)
            == if v == u && t == s {
                debited(balance_of(bals, u, s), pool, amount)
            } else {
                balance_of(bals, v, t)
            },
{
    let n = debited(balance_of(bals, u, s), pool, amount);
    lemma_with_balance_total(bals, u, s, n, x);
    assert forall|v: Seq<char>, t: Seq<char>| #[trigger] balance_of(deduct_model(bals, u, s, amount, pool), v, t)
        == if v == u && t == s { n } else { balance_of(bals, v, t) } by {
        lemma_balance_of_with(bals, u, s, n, v, t);
    }
}

/// A credit that stays within `u64` adds its amount to the total of its asset and changes
/// one entry.
proof fn lemma_add_step(bals: Balances, u: Seq<char>, s: Seq<char>, amount: u64, pool: BalancePool, x: Seq<char>)
    requires
        bals.dom().finite(),
        match pool {
            BalancePool::Available => balance_of(bals, u, s).available + amount <= u64::MAX,
            BalancePool::Locked => balance_of(bals, u, s).locked + amount <= u64::MAX,
        },
    ensures
        add_model(bals, u, s, amount, pool).dom().finite(),
        asset_total(add_model(bals, u, s, amount, pool), x) == asset_total(bals, x) + if s == x {
            amount as int
        } else {
            0
        },
        forall|v: Seq<char>, t: Seq<char>| #[trigger] balance_of(add_model(bals, u, s, amount, pool), v, t)
            == if v == u && t == s {
                credited(balance_of(bals, u, s), pool, amount)
            } else {
                balance_of(bals, v, t)
            },
{
    let n = credited(balance_of(bals, u, s), pool, amount);
    lemma_with_balance_total(bals, u, s, n, x);
    assert forall|v: Seq<char>, t: Seq<char>| #[trigger] balance_of(add_model(bals, u, s, amount, pool), v, t)
        == if v == u && t == s { n } else { balance_of(bals, v, t) } by {
        lemma_balance_of_with(bals, u, s, n, v, t);
    }
}

/// A balance event keeps its funds covered. A fill on `BASE_QUOTE`: the buyer's locked
/// quote covers the payment, the seller's locked base covers the quantity, and the
/// credited available pools stay within `u64`; where one user trades with itself on a
/// symbol whose base is its quote, the one locked pool covers both debits together and
/// the one available pool takes both credits. A cancellation releases no more than is
/// locked.
pub open spec fn event_covered(bals: Balances, event: BalanceEvent) -> bool {
    match event {
        BalanceEvent::Fill { symbol, price, quantity, buy_user_id, sell_user_id } => match symbol_parts(symbol@) {
            None => true,
            Some(parts) => {
                let base = parts.0;
                let quote = parts.1;
                let buyer = buy_user_id@;
                let seller = sell_user_id@;
                let paying = quantity * price;
                if buyer == seller && base == quote {
                    &&& balance_of(bals, buyer, base).locked >= paying + quantity
                    &&& balance_of(bals, buyer, base).available + quantity + paying <= u64::MAX
                } else {
                    &&& balance_of(bals, buyer, quote).locked >= paying
                    &&& balance_of(bals, seller, base).locked >= quantity
                    &&& balance_of(bals, buyer, base).available + quantity <= u64::MAX
                    &&& balance_of(bals, seller, quote).available + paying <= u64::MAX
                }
            },
        },
        BalanceEvent::CancelOrder { user_id, symbol, amount } => (bals.contains_key(user_id@)
            && bals[user_id@].contains_key(symbol@)) ==> bals[user_id@][symbol@].locked >= amount,
    }
}

/// Balance events move funds between users and pools and create or destroy none: what all
/// users together hold of each asset is the same after the event, where the event is
/// covered.
pub proof fn law_events_conserve_funds(bals: Balances, event: BalanceEvent, x: Seq<char>)
    requires
        bals.dom().finite(),
        event_fits(bals, event),
        event_covered(bals, event),
    ensures
        asset_total(event_model(bals, event), x) == asset_total(bals, x),
{
    match event {
        BalanceEvent::Fill { symbol, price, quantity, buy_user_id, sell_user_id } => {
            match symbol_parts(symbol@) {
                None => {},
                Some(parts) => {
                    let base = parts.0;
                    let quote = parts.1;
                    let buyer = buy_user_id@;
                    let seller = sell_user_id@;
                    let paying = (quantity * price) as u64;
                    let b1 = deduct_model(bals, buyer, quote, paying, BalancePool::Locked);
                    lemma_deduct_step(bals, buyer, quote, paying, BalancePool::Locked, x);
                    assert(balance_of(b1, buyer, base) == balance_of(bals, buyer, base) || (base == quote
                        && balance_of(b1, buyer, base).available == balance_of(bals, buyer, base).available));
                    let b2 = add_model(b1, buyer, base, quantity, BalancePool::Available);
                    lemma_add_step(b1, buyer, base, quantity, BalancePool::Available, x);
                    assert(balance_of(b2, seller, quote).available + paying <= u64::MAX) by {
                        assert(balance_of(b2, seller, quote) == balance_of(b1, seller, quote) || (seller == buyer
                            && quote == base));
                        assert(balance_of(b1, seller, quote).available == balance_of(bals, seller, quote).available);
                    }
                    let b3 = add_model(b2, seller, quote, paying, BalancePool::Available);
                    lemma_add_step(b2, seller, quote, paying, BalancePool::Available, x);
                    assert(balance_of(b3, seller, base).locked >= quantity) by {
                        assert(balance_of(b3, seller, base).locked == balance_of(b2, seller, base).locked);
                        assert(balance_of(b2, seller, base).locked == balance_of(b1, seller, base).locked);
                        if seller == buyer && base == quote {
                            assert(balance_of(b1, seller, base).locked == balance_of(bals, seller, base).locked - paying);
                        } else {
                            assert(balance_of(b1, seller, base) == balance_of(bals, seller, base));
                        }
                    }
                    lemma_deduct_step(b3, seller, base, quantity, BalancePool::Locked, x);
                    assert(event_model(bals, event) == deduct_model(b3, seller, base, quantity, BalancePool::Locked));
                },
            }
        },
        BalanceEvent::CancelOrder { user_id, symbol, amount } => {
            let u = user_id@;
            let s = symbol@;
            let m = with_user(bals, u);
            if m[u].contains_key(s) {
                let b = m[u][s];
                assert(bals.contains_key(u));
                let n = SymbolBalance { available: (b.available + amount) as u64, locked: b.locked.saturating_sub(amount) };
                assert(event_model(bals, event) == with_balance(bals, u, s, n));
                lemma_with_balance_total(bals, u, s, n, x);
            } else {
                assert(m.dom() =~= bals.dom().insert(u));
                assert forall|v: Seq<char>| #[trigger] bals.dom().contains(v) implies holding(m, v, x) == holding(bals, v, x) by {}
                lemma_users_total_frame(bals.dom(), m, bals, x);
                if bals.contains_key(u) {
                    assert(m == bals);
                } else {
                    assert(m.dom().remove(u) =~= bals.dom());
                    lemma_users_total_remove(m.dom(), m, x, u);
                    assert(holding(m, u, x) == 0);
                }
            }
        },
    }
}

} // verus!
