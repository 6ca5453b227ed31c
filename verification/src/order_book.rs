//! The order book of one symbol: price levels on each side, each a FIFO queue of
//! resting orders linked through their ids, and the matching of incoming orders.

use vstd::prelude::*;
use vstd::hash_map::StringHashMap;
use std::collections::BTreeMap;
use crate::book_model::{DEPTH_LEVELS, BookView, LevelView, is_best_price, opposite, outranks, queue_total,
    remainder, lemma_level_total_kept, lemma_queue_total_frame, lemma_queue_total_push,
    lemma_queue_total_remove, lemma_queue_total_update};
use crate::external::{new_ulid_text, ulid_text};
use crate::laws::{law_status_follows_filled_quantity, law_trades_name_buyer_and_seller, names_parties};
use crate::sorted_keys::ascending_keys;
use crate::types::{Fill, Order, OrderStatus, OrderType, RestingNode, RestingOrder, Side, TradeTerms,
    clone_opt, opt_view};

verus! {

/// One price of one side of the book: the ids at the front and back of its queue, and
/// the total quantity resting there.
#[derive(Debug)]
pub struct PriceLevel {
    head: Option<String>,
    tail: Option<String>,
    total_qty: u64,
}

impl PriceLevel {
    fn copy(&self) -> (res: PriceLevel)
        ensures
            res == *self,
    {
        PriceLevel { head: clone_opt(&self.head), tail: clone_opt(&self.tail), total_qty: self.total_qty }
    }
}

/// Calls `BTreeMap::first_key_value`, which returns the entry with the smallest key, or
/// `None` for an empty map.
#[verifier::external_body]
fn lowest_level<'a, V>(m: &'a BTreeMap<u64, V>) -> (r: Option<(&'a u64, &'a V)>)
    ensures
        match r {
            Some((k, v)) => {
                &&& m@.contains_key(*k)
                &&& m@[*k] == *v
                &&& forall|j: u64| #[trigger] m@.contains_key(j) ==> *k <= j
            },
            None => m@.dom() == Set::<u64>::empty(),
        },
{
    m.first_key_value()
}

/// Calls `BTreeMap::last_key_value`, which returns the entry with the largest key, or
/// `None` for an empty map.
#[verifier::external_body]
fn highest_level<'a, V>(m: &'a BTreeMap<u64, V>) -> (r: Option<(&'a u64, &'a V)>)
    ensures
        match r {
            Some((k, v)) => {
                &&& m@.contains_key(*k)
                &&& m@[*k] == *v
                &&& forall|j: u64| #[trigger] m@.contains_key(j) ==> j <= *k
            },
            None => m@.dom() == Set::<u64>::empty(),
        },
{
    m.last_key_value()
}

/// An order book: bids and asks by price, and the resting orders by id.
pub struct OrderBook {
    bids: BTreeMap<u64, PriceLevel>,
    asks: BTreeMap<u64, PriceLevel>,
    order_nodes: StringHashMap<RestingNode>,
    bid_queues: Ghost<Map<u64, Seq<Seq<char>>>>,
    ask_queues: Ghost<Map<u64, Seq<Seq<char>>>>,
}

impl View for OrderBook {
    type V = BookView;

    closed spec fn view(&self) -> BookView {
        BookView {
            orders: self.order_nodes@.map_values(|n: RestingNode| n.order),
            bids: self.level_views(Side::Buy),
            asks: self.level_views(Side::Sell),
        }
    }
}

impl OrderBook {
    closed spec fn levels(&self, side: Side) -> Map<u64, PriceLevel> {
        match side {
            Side::Buy => self.bids@,
            Side::Sell => self.asks@,
        }
    }

    closed spec fn queues(&self, side: Side) -> Map<u64, Seq<Seq<char>>> {
        match side {
            Side::Buy => self.bid_queues@,
            Side::Sell => self.ask_queues@,
        }
    }

    closed spec fn level_views(&self, side: Side) -> Map<u64, LevelView> {
        Map::new(
            |p: u64| self.levels(side).contains_key(p),
            |p: u64| LevelView { queue: self.queues(side)[p], head_set: self.levels(side)[p].head is Some },
        )
    }

    /// The node at place `i` of queue `q` of level (`s`, `p`) is linked to its neighbours.
    closed spec fn node_linked(&self, s: Side, p: u64, q: Seq<Seq<char>>, i: int) -> bool {
        let k = q[i];
        let n = self.order_nodes@[k];
        &&& self.order_nodes@.contains_key(k)
        &&& n.order.side == s
        &&& n.order.price == p
        &&& opt_view(n.prev_node) == if i == 0 { None } else { Some(q[i - 1]) }
        &&& opt_view(n.next_node) == if i + 1 == q.len() { None } else { Some(q[i + 1]) }
    }

    closed spec fn level_wf(&self, s: Side, p: u64) -> bool {
        let l = self.levels(s)[p];
        let q = self.queues(s)[p];
        &&& self.queues(s).contains_key(p)
        &&& q.len() > 0
        &&& q.no_duplicates()
        &&& opt_view(l.tail) == Some(q.last())
        &&& (l.head is Some ==> opt_view(l.head) == Some(q[0]))
        &&& l.total_qty == queue_total(q, self@.orders)
        &&& forall|i: int| 0 <= i < q.len() ==> #[trigger] self.node_linked(s, p, q, i)
    }

    /// The book is consistent: the links between resting orders spell out the queue of
    /// each price level, every resting order is in the queue of its own side and price,
    /// and each level's total is the sum of what rests there.
    pub closed spec fn wf(&self) -> bool {
        &&& self.order_nodes@.dom().finite()
        &&& forall|k: Seq<char>| #[trigger] self.order_nodes@.contains_key(k) ==> {
            let o = self.order_nodes@[k].order;
            &&& o.order_id@ == k
            &&& self.levels(o.side).contains_key(o.price)
            &&& self.queues(o.side)[o.price].contains(k)
        }
        &&& forall|s: Side, p: u64| #[trigger] self.levels(s).contains_key(p) ==> self.level_wf(s, p)
    }

    proof fn lemma_view_levels(&self)
        ensures
            forall|s: Side| #[trigger] self@.levels(s) == self.level_views(s),
            forall|s: Side| #[trigger] self@.levels(s).dom() == self.levels(s).dom(),
            forall|s: Side| #[trigger] self@.levels(s).dom().finite(),
    {
        assert(self.bids@.dom().finite());
        assert(self.asks@.dom().finite());
        assert(self.level_views(Side::Buy).dom() =~= self.levels(Side::Buy).dom());
        assert(self.level_views(Side::Sell).dom() =~= self.levels(Side::Sell).dom());
        assert forall|s: Side| #[trigger] self@.levels(s) == self.level_views(s) by {
            match s { Side::Buy => {}, Side::Sell => {} }
        }
        assert forall|s: Side| #[trigger] self@.levels(s).dom() == self.levels(s).dom() by {
            match s { Side::Buy => {}, Side::Sell => {} }
        }
        assert forall|s: Side| #[trigger] self@.levels(s).dom().finite() by {
            assert(self@.levels(s).dom() == self.levels(s).dom());
            match s {
                Side::Buy => { assert(self.levels(s).dom() == self.bids@.dom()); },
                Side::Sell => { assert(self.levels(s).dom() == self.asks@.dom()); },
            }
        }
    }

    /// A consistent book has a consistent model.
    pub proof fn lemma_wf_view(&self)
        requires
            self.wf(),
        ensures
            self@.wf(),
    {
        self.lemma_view_levels();
        let v = self@;
        assert(v.levels(Side::Buy).dom().finite());
        assert(v.levels(Side::Sell).dom().finite());
        assert(v.orders.dom() =~= self.order_nodes@.dom());
        assert forall|k: Seq<char>| #[trigger] v.orders.contains_key(k) implies {
            let o = v.orders[k];
            &&& o.order_id@ == k
            &&& v.levels(o.side).contains_key(o.price)
            &&& v.levels(o.side)[o.price].queue.contains(k)
        } by {
            assert(self.order_nodes@.contains_key(k));
            let o = v.orders[k];
            assert(self.levels(o.side).dom().contains(o.price));
        }
        assert forall|s: Side, p: u64| #[trigger] v.levels(s).contains_key(p) implies v.queue_ok(s, p) by {
            assert(self.levels(s).dom().contains(p));
            assert(self.level_wf(s, p));
            let q0 = self.queues(s)[p];
            let q = v.levels(s)[p].queue;
            assert(q == q0);
            assert forall|i: int| 0 <= i < q.len() implies #[trigger] v.rests_at(s, p, q[i]) by {
                assert(self.node_linked(s, p, q0, i));
            }
        }
    }

    /// Every id in a queue of a consistent book names a node of that level; so an id
    /// with no node is in no queue.
    proof fn lemma_fresh_not_queued(&self, id: Seq<char>, s: Side, p: u64)
        requires
            self.wf(),
            !self.order_nodes@.contains_key(id),
            self.levels(s).contains_key(p),
        ensures
            !self.queues(s)[p].contains(id),
    {
        assert(self.level_wf(s, p));
        let q = self.queues(s)[p];
        if q.contains(id) {
            let i = choose|i: int| 0 <= i < q.len() && q[i] == id;
            assert(self.node_linked(s, p, q, i));
        }
    }

    /// A node of a consistent book lies in the queue of its own side and price only.
    proof fn lemma_node_level(&self, k: Seq<char>, s: Side, p: u64, i: int)
        requires
            self.wf(),
            self.levels(s).contains_key(p),
            0 <= i < self.queues(s)[p].len(),
            self.queues(s)[p][i] == k,
        ensures
            self.order_nodes@.contains_key(k),
            self.order_nodes@[k].order.side == s,
            self.order_nodes@[k].order.price == p,
            self.node_linked(s, p, self.queues(s)[p], i),
    {
        assert(self.level_wf(s, p));
        assert(self.node_linked(s, p, self.queues(s)[p], i));
    }

    /// What `add_resting_order` does to the fields keeps the book consistent and is the
    /// model's `add_order`.
    proof fn lemma_add(b0: OrderBook, b1: OrderBook, order: RestingOrder, lvl: PriceLevel)
        requires
            b0.wf(),
            !b0.order_nodes@.contains_key(order.order_id@),
            b1.levels(order.side) == b0.levels(order.side).insert(order.price, lvl),
            b1.queues(order.side) == b0.queues(order.side).insert(
                order.price,
                (if b0.levels(order.side).contains_key(order.price) {
                    b0.queues(order.side)[order.price]
                } else {
                    Seq::<Seq<char>>::empty()
                }).push(order.order_id@),
            ),
            forall|s: Side| s != order.side ==> b1.levels(s) == b0.levels(s),
            forall|s: Side| s != order.side ==> b1.queues(s) == b0.queues(s),
            opt_view(lvl.tail) == Some(order.order_id@),
            b0.levels(order.side).contains_key(order.price) ==> {
                let l0 = b0.levels(order.side)[order.price];
                let t = b0.queues(order.side)[order.price].last();
                &&& lvl.head == l0.head
                &&& lvl.total_qty == l0.total_qty + order.qty
                &&& b1.order_nodes@.dom() == b0.order_nodes@.dom().insert(order.order_id@)
                &&& b1.order_nodes@[order.order_id@].order == order
                &&& opt_view(b1.order_nodes@[order.order_id@].prev_node) == Some(t)
                &&& b1.order_nodes@[order.order_id@].next_node is None
                &&& b1.order_nodes@[t].order == b0.order_nodes@[t].order
                &&& b1.order_nodes@[t].prev_node == b0.order_nodes@[t].prev_node
                &&& opt_view(b1.order_nodes@[t].next_node) == Some(order.order_id@)
                &&& forall|k: Seq<char>| k != t && k != order.order_id@ ==> b1.order_nodes@[k] == b0.order_nodes@[k]
            },
            !b0.levels(order.side).contains_key(order.price) ==> {
                &&& opt_view(lvl.head) == Some(order.order_id@)
                &&& lvl.total_qty == order.qty
                &&& b1.order_nodes@ == b0.order_nodes@.insert(
                    order.order_id@,
                    RestingNode { order, prev_node: None, next_node: None },
                )
            },
        ensures
            b1.wf(),
            b1@ == b0@.add_order(order),
    {
        let id = order.order_id@;
        let side = order.side;
        let p = order.price;
        let present = b0.levels(side).contains_key(p);
        let q0 = if present { b0.queues(side)[p] } else { Seq::<Seq<char>>::empty() };
        let q1 = q0.push(id);
        let n0 = b0.order_nodes@;
        let n1 = b1.order_nodes@;
        b0.lemma_view_levels();
        b1.lemma_view_levels();
        if present {
            b0.lemma_fresh_not_queued(id, side, p);
            assert(b0.level_wf(side, p));
            assert(b0.node_linked(side, p, q0, q0.len() - 1));
        }
        let t = q0.last();
        assert(!q0.contains(id));
        assert(n1.dom() =~= n0.dom().insert(id));
        assert(b1@.orders =~= b0@.orders.insert(id, order)) by {
            assert forall|k: Seq<char>| #[trigger] b1@.orders.contains_key(k) implies b1@.orders[k]
                == b0@.orders.insert(id, order)[k] by {
                if k != id && !(present && k == t) {
                    assert(n1[k] == n0[k]);
                }
            }
        }
        let o1 = b1@.orders;
        let o0 = b0@.orders;
        // the modified level
        assert(b1.level_wf(side, p)) by {
            assert(q1.no_duplicates());
            lemma_queue_total_push(q0, id, o1);
            if present {
                lemma_queue_total_frame(q0, o0, o1);
            }
            assert forall|i: int| 0 <= i < q1.len() implies #[trigger] b1.node_linked(side, p, q1, i) by {
                if i < q0.len() {
                    b0.lemma_node_level(q0[i], side, p, i);
                    assert(q1[i] == q0[i]);
                    if i > 0 { assert(q1[i - 1] == q0[i - 1]); }
                    if i + 1 < q0.len() { assert(q1[i + 1] == q0[i + 1]); }
                }
            }
        }
        // every other level is unchanged
        assert forall|s: Side, p2: u64| #[trigger] b1.levels(s).contains_key(p2) implies b1.level_wf(s, p2) by {
            if s != side || p2 != p {
                assert(b0.levels(s).contains_key(p2));
                assert(b0.level_wf(s, p2));
                let q = b0.queues(s)[p2];
                assert(b1.queues(s)[p2] == q);
                assert(b1.levels(s)[p2] == b0.levels(s)[p2]);
                b0.lemma_fresh_not_queued(id, s, p2);
                assert forall|i: int| 0 <= i < q.len() implies #[trigger] o0[q[i]].qty == o1[q[i]].qty by {
                    b0.lemma_node_level(q[i], s, p2, i);
                }
                lemma_queue_total_frame(q, o0, o1);
                assert forall|i: int| 0 <= i < q.len() implies #[trigger] b1.node_linked(s, p2, q, i) by {
                    b0.lemma_node_level(q[i], s, p2, i);
                    assert(q[i] != id);
                    if present {
                        assert(q[i] != t);
                    }
                    assert(n1[q[i]] == n0[q[i]]);
                }
            }
        }
        assert forall|k: Seq<char>| #[trigger] n1.contains_key(k) implies {
            let o = n1[k].order;
            &&& o.order_id@ == k
            &&& b1.levels(o.side).contains_key(o.price)
            &&& b1.queues(o.side)[o.price].contains(k)
        } by {
            if k == id {
                assert(q1[q1.len() - 1] == id);
            } else {
                assert(n0.contains_key(k));
                assert(n1[k].order == n0[k].order);
                let o = n0[k].order;
                if o.side == side && o.price == p {
                    let j = choose|j: int| 0 <= j < q0.len() && q0[j] == k;
                    assert(q1[j] == k);
                }
            }
        }
        assert(b1.wf());
        let v0 = b0@;
        let v1 = b1@;
        let lv = v0.levels(side);
        let new_level = if lv.contains_key(p) { lv[p].push(id) } else { LevelView { queue: seq![id], head_set: true } };
        assert(v1.levels(side) =~= lv.insert(p, new_level)) by {
            if present {
                assert(lv[p].queue == q0);
            } else {
                assert(q1 =~= seq![id]);
            }
        }
        assert forall|s: Side| s != side implies #[trigger] v1.levels(s) == v0.levels(s) by {
            assert(v1.levels(s) =~= v0.levels(s));
        }
        let target = v0.add_order(order);
        match side {
            Side::Buy => {
                assert(v1.asks == v0.levels(Side::Sell));
            },
            Side::Sell => {
                assert(v1.bids == v0.levels(Side::Buy));
            },
        }
    }

    /// The position that the model gives a resting order is its place in its queue.
    proof fn lemma_position(&self, id: Seq<char>)
        requires
            self.wf(),
            self.order_nodes@.contains_key(id),
        ensures
            ({
                let o = self.order_nodes@[id].order;
                let q = self.queues(o.side)[o.price];
                let i = self@.position(id);
                &&& self.levels(o.side).contains_key(o.price)
                &&& self@.orders[id] == o
                &&& self@.levels(o.side)[o.price].queue == q
                &&& 0 <= i < q.len()
                &&& q[i] == id
                &&& forall|j: int| 0 <= j < q.len() && q[j] == id ==> j == i
                &&& self.node_linked(o.side, o.price, q, i)
            }),
    {
        self.lemma_view_levels();
        let o = self.order_nodes@[id].order;
        let q = self.queues(o.side)[o.price];
        assert(self.level_wf(o.side, o.price));
        assert(self@.levels(o.side)[o.price].queue == q);
        let j = choose|j: int| 0 <= j < q.len() && q[j] == id;
        assert(0 <= j < q.len() && q[j] == id);
        let i = self@.position(id);
        assert(self.node_linked(o.side, o.price, q, i));
    }

    /// What `remove_order` does to the fields keeps the book consistent and is the
    /// model's `remove_order`.
    proof fn lemma_remove(b0: OrderBook, b1: OrderBook, id: Seq<char>, lvl: PriceLevel)
        requires
            b0.wf(),
            b0.order_nodes@.contains_key(id),
            ({
                let node = b0.order_nodes@[id];
                let side = node.order.side;
                let p = node.order.price;
                let q0 = b0.queues(side)[p];
                let i = b0@.position(id);
                let q1 = q0.remove(i);
                let l0 = b0.levels(side)[p];
                let n0 = b0.order_nodes@;
                let n1 = b1.order_nodes@;
                &&& n1.dom() == n0.dom().remove(id)
                &&& forall|k: Seq<char>| #[trigger] n1.contains_key(k) && (i == 0 || k != q0[i - 1]) && (i + 1 == q0.len() || k != q0[i + 1])
                    ==> n1[k] == n0[k]
                &&& i > 0 ==> n1[q0[i - 1]] == RestingNode { next_node: node.next_node, ..n0[q0[i - 1]] }
                &&& i + 1 < q0.len() ==> n1[q0[i + 1]] == RestingNode { prev_node: node.prev_node, ..n0[q0[i + 1]] }
                &&& forall|s: Side| s != side ==> b1.levels(s) == b0.levels(s)
                &&& forall|s: Side| s != side ==> b1.queues(s) == b0.queues(s)
                &&& q1.len() == 0 ==> b1.levels(side) == b0.levels(side).remove(p)
                &&& q1.len() == 0 ==> b1.queues(side) == b0.queues(side)
                &&& q1.len() > 0 ==> {
                    &&& b1.levels(side) == b0.levels(side).insert(p, lvl)
                    &&& b1.queues(side) == b0.queues(side).insert(p, q1)
                    &&& lvl.total_qty == l0.total_qty - node.order.qty
                    &&& lvl.tail == if i + 1 == q0.len() { node.prev_node } else { l0.tail }
                    &&& lvl.head == if i == 0 { node.prev_node } else { l0.head }
                }
            }),
        ensures
            b1.wf(),
            b1@ == b0@.remove_order(id),
    {
        b0.lemma_position(id);
        b0.lemma_view_levels();
        b1.lemma_view_levels();
        let node = b0.order_nodes@[id];
        let side = node.order.side;
        let p = node.order.price;
        let q0 = b0.queues(side)[p];
        let i = b0@.position(id);
        let q1 = q0.remove(i);
        let l0 = b0.levels(side)[p];
        let n0 = b0.order_nodes@;
        let n1 = b1.order_nodes@;
        let o0 = b0@.orders;
        let o1 = b1@.orders;
        assert(b0.level_wf(side, p));
        assert(n1.dom() =~= n0.dom().remove(id));
        assert(o1 =~= o0.remove(id)) by {
            assert forall|k: Seq<char>| #[trigger] o1.contains_key(k) implies o1[k] == o0.remove(id)[k] by {
                assert(n1[k].order == n0[k].order);
            }
        }
        assert(!q1.contains(id)) by {
            if q1.contains(id) {
                let j = choose|j: int| 0 <= j < q1.len() && q1[j] == id;
                if j < i {
                    assert(q0[j] == id);
                } else {
                    assert(q0[j + 1] == id);
                }
            }
        }
        assert(q1.no_duplicates()) by {
            assert forall|a: int, b: int| 0 <= a < q1.len() && 0 <= b < q1.len() && a != b implies q1[a] != q1[b] by {
                let a0 = if a < i { a } else { a + 1 };
                let b0i = if b < i { b } else { b + 1 };
                assert(q1[a] == q0[a0]);
                assert(q1[b] == q0[b0i]);
            }
        }
        // the level the order leaves
        if q1.len() > 0 {
            assert(b1.level_wf(side, p)) by {
                lemma_queue_total_remove(q0, i, o0);
                assert forall|j: int| 0 <= j < q1.len() implies #[trigger] o0[q1[j]].qty == o1[q1[j]].qty by {
                    assert(q1[j] != id);
                }
                lemma_queue_total_frame(q1, o0, o1);
                if i > 0 {
                    b0.lemma_node_level(q0[i - 1], side, p, i - 1);
                }
                if i + 1 < q0.len() {
                    b0.lemma_node_level(q0[i + 1], side, p, i + 1);
                }
                assert forall|j: int| 0 <= j < q1.len() implies #[trigger] b1.node_linked(side, p, q1, j) by {
                    if j < i {
                        b0.lemma_node_level(q0[j], side, p, j);
                        assert(q1[j] == q0[j]);
                        if j > 0 { assert(q1[j - 1] == q0[j - 1]); }
                        if j + 1 < i { assert(q1[j + 1] == q0[j + 1]); }
                        if j + 1 == i && i + 1 < q0.len() { assert(q1[j + 1] == q0[i + 1]); }
                    } else {
                        b0.lemma_node_level(q0[j + 1], side, p, j + 1);
                        assert(q1[j] == q0[j + 1]);
                        if j > i { assert(q1[j - 1] == q0[j]); }
                        if j == i && i > 0 { assert(q1[j - 1] == q0[i - 1]); }
                        if j + 1 < q1.len() { assert(q1[j + 1] == q0[j + 2]); }
                    }
                }
                if i + 1 < q0.len() {
                    assert(q1.last() == q0.last());
                } else {
                    assert(q1.last() == q0[i - 1]);
                }
                if i > 0 {
                    assert(q1[0] == q0[0]);
                }
            }
        }
        assert forall|s: Side, p2: u64| #[trigger] b1.levels(s).contains_key(p2) implies b1.level_wf(s, p2) by {
            if s != side || p2 != p {
                assert(b0.levels(s).contains_key(p2));
                assert(b0.level_wf(s, p2));
                let q = b0.queues(s)[p2];
                assert(b1.queues(s)[p2] == q);
                assert(b1.levels(s)[p2] == b0.levels(s)[p2]);
                assert forall|j: int| 0 <= j < q.len() implies #[trigger] o0[q[j]].qty == o1[q[j]].qty by {
                    b0.lemma_node_level(q[j], s, p2, j);
                    assert(q[j] != id);
                }
                lemma_queue_total_frame(q, o0, o1);
                assert forall|j: int| 0 <= j < q.len() implies #[trigger] b1.node_linked(s, p2, q, j) by {
                    b0.lemma_node_level(q[j], s, p2, j);
                    if i > 0 {
                        b0.lemma_node_level(q0[i - 1], side, p, i - 1);
                    }
                    if i + 1 < q0.len() {
                        b0.lemma_node_level(q0[i + 1], side, p, i + 1);
                    }
                    assert(n1[q[j]] == n0[q[j]]);
                }
            }
        }
        assert forall|k: Seq<char>| #[trigger] n1.contains_key(k) implies {
            let o = n1[k].order;
            &&& o.order_id@ == k
            &&& b1.levels(o.side).contains_key(o.price)
            &&& b1.queues(o.side)[o.price].contains(k)
        } by {
            assert(n0.contains_key(k));
            assert(n1[k].order == n0[k].order);
            let o = n0[k].order;
            if o.side == side && o.price == p {
                let j = choose|j: int| 0 <= j < q0.len() && q0[j] == k;
                assert(j != i);
                if j < i {
                    assert(q1[j] == k);
                } else {
                    assert(q1[j - 1] == k);
                }
            }
        }
        assert(b1.wf());
        let v0 = b0@;
        let v1 = b1@;
        let lv = v0.levels(side);
        assert(lv[p].queue == q0);
        assert(lv[p].head_set == l0.head is Some);
        let lv2 = if q1.len() == 0 {
            lv.remove(p)
        } else {
            lv.insert(p, LevelView { queue: q1, head_set: lv[p].head_set && i != 0 })
        };
        assert(v1.levels(side) =~= lv2);
        assert forall|s: Side| s != side implies #[trigger] v1.levels(s) == v0.levels(s) by {
            assert(v1.levels(s) =~= v0.levels(s));
        }
        match side {
            Side::Buy => {
                assert(v1.asks == v0.levels(Side::Sell));
            },
            Side::Sell => {
                assert(v1.bids == v0.levels(Side::Buy));
            },
        }
    }

    /// What `set_resting_qty` does to the fields keeps the book consistent and is the
    /// model's `with_qty`.
    proof fn lemma_set_qty(b0: OrderBook, b1: OrderBook, id: Seq<char>, nq: u64, lvl: PriceLevel)
        requires
            b0.wf(),
            b0.order_nodes@.contains_key(id),
            ({
                let n = b0.order_nodes@[id];
                let o = n.order;
                let l0 = b0.levels(o.side)[o.price];
                &&& nq <= o.qty
                &&& b1.order_nodes@ == b0.order_nodes@.insert(
                    id,
                    RestingNode { order: RestingOrder { qty: nq, ..o }, ..n },
                )
                &&& b1.levels(o.side) == b0.levels(o.side).insert(o.price, lvl)
                &&& lvl == PriceLevel { total_qty: (l0.total_qty - (o.qty - nq)) as u64, ..l0 }
                &&& forall|s: Side| s != o.side ==> b1.levels(s) == b0.levels(s)
                &&& forall|s: Side| #[trigger] b1.queues(s) == b0.queues(s)
            }),
        ensures
            b1.wf(),
            b1@ == b0@.with_qty(id, nq),
    {
        b0.lemma_position(id);
        b0.lemma_view_levels();
        b1.lemma_view_levels();
        let n = b0.order_nodes@[id];
        let o = n.order;
        let side = o.side;
        let p = o.price;
        let q = b0.queues(side)[p];
        let i = b0@.position(id);
        let n0 = b0.order_nodes@;
        let n1 = b1.order_nodes@;
        let o0 = b0@.orders;
        let o1 = b1@.orders;
        let r2 = RestingOrder { qty: nq, ..o };
        assert(o1 =~= o0.insert(id, r2));
        assert(b1.queues(side) == b0.queues(side));
        assert(b1.level_wf(side, p)) by {
            assert(b0.level_wf(side, p));
            lemma_queue_total_update(q, o0, i, r2);
            assert forall|j: int| 0 <= j < q.len() implies #[trigger] b1.node_linked(side, p, q, j) by {
                b0.lemma_node_level(q[j], side, p, j);
            }
        }
        assert forall|s: Side, p2: u64| #[trigger] b1.levels(s).contains_key(p2) implies b1.level_wf(s, p2) by {
            assert(b1.queues(s) == b0.queues(s));
            if s != side || p2 != p {
                assert(b0.levels(s).contains_key(p2));
                assert(b0.level_wf(s, p2));
                let q2 = b0.queues(s)[p2];
                assert(b1.levels(s)[p2] == b0.levels(s)[p2]);
                assert forall|j: int| 0 <= j < q2.len() implies #[trigger] o0[q2[j]].qty == o1[q2[j]].qty by {
                    b0.lemma_node_level(q2[j], s, p2, j);
                }
                lemma_queue_total_frame(q2, o0, o1);
                assert forall|j: int| 0 <= j < q2.len() implies #[trigger] b1.node_linked(s, p2, q2, j) by {
                    b0.lemma_node_level(q2[j], s, p2, j);
                }
            }
        }
        assert forall|k: Seq<char>| #[trigger] n1.contains_key(k) implies {
            let ok = n1[k].order;
            &&& ok.order_id@ == k
            &&& b1.levels(ok.side).contains_key(ok.price)
            &&& b1.queues(ok.side)[ok.price].contains(k)
        } by {
            assert(n0.contains_key(k));
            assert(b1.queues(n0[k].order.side) == b0.queues(n0[k].order.side));
        }
        assert(n1.dom() =~= n0.dom());
        assert(b1.wf());
        let v0 = b0@;
        let v1 = b1@;
        assert forall|s: Side| #[trigger] v1.levels(s) == v0.levels(s) by {
            assert(b1.queues(s) == b0.queues(s));
            assert(v1.levels(s) =~= v0.levels(s));
        }
        assert(v1.bids == v0.levels(Side::Buy));
        assert(v1.asks == v0.levels(Side::Sell));
    }

    /// The best price is the one price with the property.
    proof fn lemma_best_price(v: BookView, taker: Side, k: u64)
        requires
            is_best_price(v.levels(opposite(taker)), taker, k),
        ensures
            v.best_price(taker) == Some(k),
    {
        let lv = v.levels(opposite(taker));
        let c = choose|p: u64| is_best_price(lv, taker, p);
        assert(is_best_price(lv, taker, c));
        assert(lv.contains_key(c));
        assert(lv.contains_key(k));
    }

    /// Creates an empty book.
    pub fn new() -> (book: Self)
        ensures
            book.wf(),
            book@.orders.is_empty(),
            book@.bids.is_empty(),
            book@.asks.is_empty(),
    {
        let book = OrderBook {
            bids: BTreeMap::new(),
            asks: BTreeMap::new(),
            order_nodes: StringHashMap::new(),
            bid_queues: Ghost(Map::empty()),
            ask_queues: Ghost(Map::empty()),
        };
        proof {
            assert(book@.orders =~= Map::empty());
            assert(book@.bids =~= Map::empty());
            assert(book@.asks =~= Map::empty());
        }
        book
    }

    fn get_level(&self, side: Side, price: u64) -> (r: Option<&PriceLevel>)
        ensures
            match r {
                Some(l) => self.levels(side).contains_key(price) && *l == self.levels(side)[price],
                None => !self.levels(side).contains_key(price),
            },
    {
        match side {
            Side::Buy => self.bids.get(&price),
            Side::Sell => self.asks.get(&price),
        }
    }

    fn put_level(&mut self, side: Side, price: u64, level: PriceLevel, Ghost(q): Ghost<Seq<Seq<char>>>)
        ensures
            final(self).levels(side) == old(self).levels(side).insert(price, level),
            final(self).queues(side) == old(self).queues(side).insert(price, q),
            forall|s: Side| s != side ==> final(self).levels(s) == old(self).levels(s),
            forall|s: Side| s != side ==> final(self).queues(s) == old(self).queues(s),
            final(self).order_nodes@ == old(self).order_nodes@,
    {
        match side {
            Side::Buy => {
                self.bids.insert(price, level);
                self.bid_queues = Ghost(self.bid_queues@.insert(price, q));
            },
            Side::Sell => {
                self.asks.insert(price, level);
                self.ask_queues = Ghost(self.ask_queues@.insert(price, q));
            },
        }
    }

    fn drop_level(&mut self, side: Side, price: u64)
        ensures
            final(self).levels(side) == old(self).levels(side).remove(price),
            final(self).queues(side) == old(self).queues(side),
            forall|s: Side| s != side ==> final(self).levels(s) == old(self).levels(s),
            forall|s: Side| s != side ==> final(self).queues(s) == old(self).queues(s),
            final(self).order_nodes@ == old(self).order_nodes@,
    {
        match side {
            Side::Buy => {
                self.bids.remove(&price);
            },
            Side::Sell => {
                self.asks.remove(&price);
            },
        }
    }

    /// Queues an order at the back of its price level, opening the level if it is new.
    pub fn add_resting_order(&mut self, order: RestingOrder)
        requires
            old(self).wf(),
            !old(self)@.orders.contains_key(order.order_id@),
            old(self)@.level_total(order.side, order.price) + order.qty <= u64::MAX,
        ensures
            final(self).wf(),
            final(self)@ == old(self)@.add_order(order),
    {
        let ghost old_book = *self;
        let order_id = order.order_id.clone();
        let price = order.price;
        let side = order.side;
        let ghost present = old_book.levels(side).contains_key(price);
        let ghost q0 = if present { old_book.queues(side)[price] } else { Seq::<Seq<char>>::empty() };
        proof {
            old_book.lemma_view_levels();
            if present {
                assert(old_book.level_wf(side, price));
                old_book.lemma_node_level(q0.last(), side, price, q0.len() - 1);
            }
        }
        let mut level = match self.get_level(side, price) {
            Some(l) => l.copy(),
            None => PriceLevel { head: None, tail: None, total_qty: 0 },
        };
        level.total_qty = level.total_qty + order.qty;
        match &level.tail {
            None => {
                level.head = Some(order_id.clone());
                level.tail = Some(order_id.clone());
                self.order_nodes.insert(
                    order_id.clone(),
                    RestingNode { order, prev_node: None, next_node: None },
                );
            },
            Some(prev_tail_id) => {
                let prev_tail_id = prev_tail_id.clone();
                match self.order_nodes.get(prev_tail_id.as_str()) {
                    Some(prev_tail) => {
                        let mut updated = prev_tail.clone();
                        updated.next_node = Some(order_id.clone());
                        self.order_nodes.insert(prev_tail_id.clone(), updated);
                    },
                    None => {},
                }
                self.order_nodes.insert(
                    order_id.clone(),
                    RestingNode { order, prev_node: Some(prev_tail_id), next_node: None },
                );
                level.tail = Some(order_id.clone());
            },
        }
        let ghost lvl = level;
        self.put_level(side, price, level, Ghost(q0.push(order_id@)));
        proof {
            if present {
                assert(self.order_nodes@.dom() =~= old_book.order_nodes@.dom().insert(order_id@));
            }
            OrderBook::lemma_add(old_book, *self, order, lvl);
        }
    }

    /// Takes a resting order out of the book, relinking its neighbours; returns the
    /// order with the ids that were queued before and after it, or `None` where no order
    /// has the id.
    pub fn remove_order(&mut self, order_id: &str) -> (res: Option<RestingNode>)
        requires
            old(self).wf(),
        ensures
            final(self).wf(),
            final(self)@ == old(self)@.remove_order(order_id@),
            match res {
                None => !old(self)@.orders.contains_key(order_id@),
                Some(n) => {
                    &&& old(self)@.orders.contains_key(order_id@)
                    &&& n.order == old(self)@.orders[order_id@]
                    &&& opt_view(n.prev_node) == old(self)@.prev_of(order_id@)
                    &&& opt_view(n.next_node) == old(self)@.next_of(order_id@)
                }
            },
    {
        let ghost b0 = *self;
        let resting_node = match self.order_nodes.get(order_id) {
            None => {
                proof {
                    assert(!self@.orders.contains_key(order_id@));
                }
                return None;
            },
            Some(n) => n.clone(),
        };
        let ghost id = order_id@;
        let ghost side = resting_node.order.side;
        let ghost p = resting_node.order.price;
        let ghost q0 = b0.queues(side)[p];
        let ghost i = b0@.position(id);
        proof {
            b0.lemma_position(id);
            assert(b0.level_wf(side, p));
            if i > 0 {
                b0.lemma_node_level(q0[i - 1], side, p, i - 1);
            }
            if i + 1 < q0.len() {
                b0.lemma_node_level(q0[i + 1], side, p, i + 1);
            }
            lemma_queue_total_remove(q0, i, b0@.orders);
        }
        self.order_nodes.remove(order_id);
        let level_side = resting_node.order.side;
        let price = resting_node.order.price;
        let mut level = self.get_level(level_side, price).unwrap().copy();
        level.total_qty = level.total_qty - resting_node.order.qty;
        match clone_opt(&resting_node.next_node) {
            Some(next_id) => {
                match self.order_nodes.get(next_id.as_str()) {
                    Some(next_node) => {
                        let mut updated = next_node.clone();
                        updated.prev_node = clone_opt(&resting_node.prev_node);
                        self.order_nodes.insert(next_id, updated);
                    },
                    None => {
                        proof {
                            assert(false);
                        }
                    },
                }
            },
            None => {
                level.tail = clone_opt(&resting_node.prev_node);
            },
        }
        match clone_opt(&resting_node.prev_node) {
            Some(prev_id) => {
                match self.order_nodes.get(prev_id.as_str()) {
                    Some(prev_node) => {
                        let mut updated = prev_node.clone();
                        updated.next_node = clone_opt(&resting_node.next_node);
                        self.order_nodes.insert(prev_id, updated);
                    },
                    None => {
                        proof {
                            assert(false);
                        }
                    },
                }
            },
            None => {
                level.head = clone_opt(&resting_node.prev_node);
            },
        }
        let ghost lvl = level;
        if level.head.is_none() && level.tail.is_none() {
            self.drop_level(level_side, price);
        } else {
            self.put_level(level_side, price, level, Ghost(q0.remove(i)));
        }
        proof {
            let n0 = b0.order_nodes@;
            let n1 = self.order_nodes@;
            assert(n1.dom() =~= n0.dom().remove(id));
            OrderBook::lemma_remove(b0, *self, id, lvl);
        }
        Some(resting_node)
    }

    fn set_resting_qty(&mut self, id: &String, new_qty: u64)
        requires
            old(self).wf(),
            old(self)@.orders.contains_key(id@),
            new_qty <= old(self)@.orders[id@].qty,
        ensures
            final(self).wf(),
            final(self)@ == old(self)@.with_qty(id@, new_qty),
    {
        let ghost b0 = *self;
        proof {
            b0.lemma_position(id@);
        }
        let node = self.order_nodes.get(id.as_str()).unwrap().clone();
        let side = node.order.side;
        let price = node.order.price;
        let mut level = self.get_level(side, price).unwrap().copy();
        proof {
            assert(b0.level_wf(side, price));
            let q = b0.queues(side)[price];
            lemma_queue_total_remove(q, b0@.position(id@), b0@.orders);
        }
        level.total_qty = level.total_qty - (node.order.qty - new_qty);
        let mut updated = node.clone();
        updated.order.qty = new_qty;
        self.order_nodes.insert(id.clone(), updated);
        let ghost lvl = level;
        self.put_level(side, price, level, Ghost(b0.queues(side)[price]));
        proof {
            assert forall|s: Side| #[trigger] self.queues(s) == b0.queues(s) by {
                if s == side {
                    assert(self.queues(s) =~= b0.queues(s));
                }
            }
            OrderBook::lemma_set_qty(b0, *self, id@, new_qty, lvl);
        }
    }

    /// The resting order at the front of the best opposite level for an incoming order
    /// on `side`: the lowest ask for a buyer, the highest bid for a seller. Returns the
    /// level's price and the id its head records.
    fn best_head(&self, side: Side) -> (r: Option<(u64, Option<String>)>)
        requires
            self.wf(),
        ensures
            match r {
                None => self@.best_price(side) is None,
                Some((p, h)) => {
                    &&& self@.best_price(side) == Some(p)
                    &&& self@.levels(opposite(side)).contains_key(p)
                    &&& (h is Some <==> self@.levels(opposite(side))[p].head_set)
                    &&& (h matches Some(x) ==> x@ == self@.levels(opposite(side))[p].queue[0])
                },
            },
    {
        proof {
            self.lemma_view_levels();
        }
        let found = match side {
            Side::Buy => lowest_level(&self.asks),
            Side::Sell => highest_level(&self.bids),
        };
        match found {
            None => {
                proof {
                    let lv = self@.levels(opposite(side));
                    assert(lv.dom() =~= Set::<u64>::empty());
                    if exists|p: u64| is_best_price(lv, side, p) {
                        let p = choose|p: u64| is_best_price(lv, side, p);
                        assert(lv.contains_key(p));
                    }
                }
                None
            },
            Some((k, l)) => {
                proof {
                    let lv = self@.levels(opposite(side));
                    assert(self.levels(opposite(side)).contains_key(*k));
                    assert forall|j: u64| #[trigger] lv.contains_key(j) implies (match side {
                        Side::Buy => *k <= j,
                        Side::Sell => j <= *k,
                    }) by {
                        assert(self.levels(opposite(side)).contains_key(j));
                    }
                    OrderBook::lemma_best_price(self@, side, *k);
                    assert(self.level_wf(opposite(side), *k));
                }
                Some((*k, clone_opt(&l.head)))
            },
        }
    }

    /// The rounds of matching: while the incoming order is not filled, the order at the
    /// front of the best opposite level trades with it if the price is acceptable. Stops
    /// where a round would stop; nothing rests and the status is not settled yet.
    fn run_rounds(&mut self, created_order: &mut Order) -> (fills: Vec<Fill>)
        requires
            old(self).wf(),
            !old(self)@.orders.contains_key(old(created_order).order_id@),
        ensures
            final(self).wf(),
            ({
                let o0 = *old(created_order);
                let r = old(self)@.match_rounds(o0, o0.filled_qty, (o0.quantity + old(self)@.orders.dom().len()) as nat);
                &&& final(self)@ == r.0
                &&& final(created_order).filled_qty == r.1
                &&& fills@.len() == r.2.len()
                &&& forall|i: int| 0 <= i < fills@.len() ==> #[trigger] fills@[i].terms() == r.2[i]
                &&& !final(self)@.orders.contains_key(o0.order_id@)
                &&& final(self)@.level_total(o0.side, o0.price) == old(self)@.level_total(o0.side, o0.price)
                &&& fills@.len() > 0 ==> final(created_order).status == OrderStatus::PartiallyFilled
                &&& fills@.len() == 0 ==> final(created_order).status == o0.status
            }),
            final(created_order).filled@ == old(created_order).filled@ + fills@,
            forall|i: int| 0 <= i < fills@.len() ==> #[trigger] ulid_text(fills@[i].trade_id@),
            final(created_order).symbol == old(created_order).symbol,
            final(created_order).user_id == old(created_order).user_id,
            final(created_order).order_id == old(created_order).order_id,
            final(created_order).side == old(created_order).side,
            final(created_order).order_type == old(created_order).order_type,
            final(created_order).price == old(created_order).price,
            final(created_order).quantity == old(created_order).quantity,
            final(created_order).timestamp == old(created_order).timestamp,
    {
        let ghost v0 = self@;
        let ghost o0 = *created_order;
        let ghost fuel0: nat = (o0.quantity + v0.orders.dom().len()) as nat;
        let ghost mut fuel: nat = fuel0;
        let ghost mut stopped = false;
        let mut fills: Vec<Fill> = Vec::new();
        proof {
            self.lemma_wf_view();
            assert(created_order.filled@ =~= o0.filled@ + fills@);
            assert(fills@.map_values(|f: Fill| f.terms()) + v0.match_rounds(o0, o0.filled_qty, fuel0).2
                =~= v0.match_rounds(o0, o0.filled_qty, fuel0).2);
        }
        while created_order.quantity > created_order.filled_qty
            invariant
                self.wf(),
                self@.wf(),
                created_order.symbol == o0.symbol,
                created_order.user_id == o0.user_id,
                created_order.order_id == o0.order_id,
                created_order.side == o0.side,
                created_order.order_type == o0.order_type,
                created_order.price == o0.price,
                created_order.quantity == o0.quantity,
                created_order.timestamp == o0.timestamp,
                created_order.filled@ == o0.filled@ + fills@,
                forall|i: int| 0 <= i < fills@.len() ==> #[trigger] ulid_text(fills@[i].trade_id@),
                fills@.len() > 0 ==> created_order.status == OrderStatus::PartiallyFilled,
                fills@.len() == 0 ==> created_order.status == o0.status,
                !self@.orders.contains_key(o0.order_id@),
                self@.level_total(o0.side, o0.price) == v0.level_total(o0.side, o0.price),
                created_order.filled_qty <= created_order.quantity ==> fuel >= (created_order.quantity
                    - created_order.filled_qty) + self@.orders.dom().len(),
                stopped ==> self@.match_step(o0, created_order.filled_qty) is None,
                ({
                    let r0 = v0.match_rounds(o0, o0.filled_qty, fuel0);
                    let rc = self@.match_rounds(o0, created_order.filled_qty, fuel);
                    &&& rc.0 == r0.0
                    &&& rc.1 == r0.1
                    &&& fills@.map_values(|f: Fill| f.terms()) + rc.2 == r0.2
                }),
            ensures
                self@.match_step(o0, created_order.filled_qty) is None,
            decreases fuel,
        {
            let ghost vc = self@;
            let ghost fc = created_order.filled_qty;
            let best = self.best_head(created_order.side);
            let head = match best {
                None => {
                    proof {
                        stopped = true;
                    }
                    break;
                },
                Some((_, h)) => h,
            };
            let ghost price = best.unwrap().0;
            let order_id = match head {
                None => {
                    proof {
                        stopped = true;
                    }
                    break;
                },
                Some(h) => h,
            };
            proof {
                assert(vc.queue_ok(opposite(o0.side), price));
                assert(vc.rests_at(opposite(o0.side), price, vc.levels(opposite(o0.side))[price].queue[0]));
            }
            let resting = match self.order_nodes.get(order_id.as_str()) {
                None => {
                    proof {
                        assert(false);
                    }
                    break;
                },
                Some(n) => n.order.clone(),
            };
            proof {
                assert(resting == vc.orders[order_id@]);
            }
            let is_match = match created_order.order_type {
                OrderType::Market => true,
                OrderType::Limit => match created_order.side {
                    Side::Buy => created_order.price >= resting.price,
                    Side::Sell => created_order.price <= resting.price,
                },
            };
            if !is_match {
                proof {
                    stopped = true;
                }
                break;
            }
            let remain = created_order.quantity - created_order.filled_qty;
            let filled_qty = if remain <= resting.qty { remain } else { resting.qty };
            let matched_price = resting.price;
            let trade_id = new_ulid_text();
            let (buy_user_id, sell_user_id) = match created_order.side {
                Side::Buy => (created_order.user_id.clone(), resting.user_id.clone()),
                Side::Sell => (resting.user_id.clone(), created_order.user_id.clone()),
            };
            let fill = Fill {
                symbol: created_order.symbol.clone(),
                trade_id,
                buy_user_id,
                sell_user_id,
                maker_order_id: resting.order_id.clone(),
                taker_order_id: created_order.order_id.clone(),
                price: matched_price,
                quantity: filled_qty,
            };
            let ghost t = fill.terms();
            let ghost fills_before = fills@;
            fills.push(fill.clone());
            created_order.filled.push(fill);
            created_order.status = OrderStatus::PartiallyFilled;
            created_order.filled_qty = created_order.filled_qty + filled_qty;
            let new_qty = resting.qty - filled_qty;
            self.set_resting_qty(&order_id, new_qty);
            let ghost v1 = self@;
            proof {
                self.lemma_wf_view();
            }
            if new_qty == 0 {
                self.remove_order(order_id.as_str());
            }
            proof {
                self.lemma_wf_view();
                let id = order_id@;
                let vn = self@;
                assert(vc.match_step(o0, fc) == Some((vn, created_order.filled_qty, t)));
                assert(v1.orders.dom() =~= vc.orders.dom());
                if new_qty == 0 {
                    assert(vn.orders.dom() =~= v1.orders.dom().remove(id));
                }
                assert(vn.levels(o0.side) == vc.levels(o0.side));
                lemma_level_total_kept(vc, vn, o0.side, o0.price);
                let old_fuel = fuel;
                fuel = (fuel - 1) as nat;
                assert(vc.match_rounds(o0, fc, old_fuel) == (
                    vn.match_rounds(o0, created_order.filled_qty, fuel).0,
                    vn.match_rounds(o0, created_order.filled_qty, fuel).1,
                    seq![t] + vn.match_rounds(o0, created_order.filled_qty, fuel).2,
                ));
                assert(fills@.map_values(|f: Fill| f.terms()) =~= fills_before.map_values(|f: Fill| f.terms()).push(t));
                assert(created_order.filled@ =~= o0.filled@ + fills@);
                stopped = false;
            }
        }
        proof {
            let vc = self@;
            assert(vc.match_step(o0, created_order.filled_qty) is None);
            assert(vc.match_rounds(o0, created_order.filled_qty, fuel) == (vc, created_order.filled_qty, Seq::<TradeTerms>::empty()));
            assert(fills@.map_values(|f: Fill| f.terms()) + Seq::<TradeTerms>::empty() =~= fills@.map_values(|f: Fill| f.terms()));
        }
        proof {
            let r0 = v0.match_rounds(o0, o0.filled_qty, fuel0);
            assert(fills@.map_values(|f: Fill| f.terms()) == r0.2);
            assert forall|i: int| 0 <= i < fills@.len() implies #[trigger] fills@[i].terms() == r0.2[i] by {
                assert(fills@.map_values(|f: Fill| f.terms())[i] == fills@[i].terms());
            }
        }
        fills
    }

    /// Matches an incoming order against the opposite side of the book, best price first
    /// and, within a price, from the front of the queue; each trade is at the resting
    /// order's price. Afterwards an unfilled limit order rests with what is left, an
    /// unfilled market order is cancelled, and a filled order is marked filled. Returns the
    /// fills, which are also appended to the incoming order's own list.
    pub fn match_order(&mut self, created_order: &mut Order) -> (fills: Vec<Fill>)
        requires
            old(self).wf(),
            !old(self)@.orders.contains_key(old(created_order).order_id@),
            old(self)@.rest_fits(*old(created_order)),
        ensures
            final(self).wf(),
            ({
                let out = old(self)@.match_result(*old(created_order));
                &&& final(self)@ == out.book
                &&& final(created_order).filled_qty == out.filled_qty
                &&& final(created_order).status == out.status
                &&& fills@.len() == out.trades.len()
                &&& forall|i: int| 0 <= i < fills@.len() ==> #[trigger] fills@[i].terms() == out.trades[i]
            }),
            final(created_order).filled@ == old(created_order).filled@ + fills@,
            forall|i: int| 0 <= i < fills@.len() ==> {
                &&& old(self)@.orders.contains_key(#[trigger] fills@[i].maker_order_id@)
                &&& names_parties(*old(created_order), old(self)@.orders[fills@[i].maker_order_id@], fills@[i].terms())
            },
            final(created_order).filled_qty >= old(created_order).quantity ==> final(created_order).status == OrderStatus::Filled,
            (final(created_order).filled_qty < old(created_order).quantity && old(created_order).order_type == OrderType::Market)
                ==> final(created_order).status == OrderStatus::Cancelled,
            forall|i: int| 0 <= i < fills@.len() ==> #[trigger] ulid_text(fills@[i].trade_id@),
            final(created_order).symbol == old(created_order).symbol,
            final(created_order).user_id == old(created_order).user_id,
            final(created_order).order_id == old(created_order).order_id,
            final(created_order).side == old(created_order).side,
            final(created_order).order_type == old(created_order).order_type,
            final(created_order).price == old(created_order).price,
            final(created_order).quantity == old(created_order).quantity,
            final(created_order).timestamp == old(created_order).timestamp,
    {
        match self.try_match_order(created_order) {
            Ok(fills) => fills,
            Err(fills) => fills,
        }
    }

    /// Matches an incoming order as `match_order` does, where what is left of an unfilled
    /// limit order fits in its price level's total. Where it would take that total beyond
    /// the largest `u64`, the rounds of matching still take place but nothing rests:
    /// `Err` with the fills made, the book as the rounds left it, and the order's filled
    /// quantity and fills counted.
    pub fn try_match_order(&mut self, created_order: &mut Order) -> (res: Result<Vec<Fill>, Vec<Fill>>)
        requires
            old(self).wf(),
            !old(self)@.orders.contains_key(old(created_order).order_id@),
        ensures
            final(self).wf(),
            match res {
                Ok(fills) => {
                    let out = old(self)@.match_result(*old(created_order));
                    &&& old(self)@.rest_fits(*old(created_order))
                    &&& final(self)@ == out.book
                    &&& final(created_order).filled_qty == out.filled_qty
                    &&& final(created_order).status == out.status
                    &&& fills@.len() == out.trades.len()
                    &&& forall|i: int| 0 <= i < fills@.len() ==> #[trigger] fills@[i].terms() == out.trades[i]
                    &&& final(created_order).filled@ == old(created_order).filled@ + fills@
                    &&& forall|i: int| 0 <= i < fills@.len() ==> #[trigger] ulid_text(fills@[i].trade_id@)
                    &&& forall|i: int| 0 <= i < fills@.len() ==> {
                        &&& old(self)@.orders.contains_key(#[trigger] fills@[i].maker_order_id@)
                        &&& names_parties(*old(created_order), old(self)@.orders[fills@[i].maker_order_id@], fills@[i].terms())
                    }
                    &&& final(created_order).filled_qty >= old(created_order).quantity
                        ==> final(created_order).status == OrderStatus::Filled
                    &&& (final(created_order).filled_qty < old(created_order).quantity
                        && old(created_order).order_type == OrderType::Market)
                        ==> final(created_order).status == OrderStatus::Cancelled
                },
                Err(fills) => {
                    let o0 = *old(created_order);
                    let r = old(self)@.match_rounds(o0, o0.filled_qty, (o0.quantity + old(self)@.orders.dom().len()) as nat);
                    &&& !old(self)@.rest_fits(o0)
                    &&& final(self)@ == r.0
                    &&& final(created_order).filled_qty == r.1
                    &&& fills@.len() == r.2.len()
                    &&& forall|i: int| 0 <= i < fills@.len() ==> #[trigger] fills@[i].terms() == r.2[i]
                    &&& final(created_order).filled@ == old(created_order).filled@ + fills@
                    &&& forall|i: int| 0 <= i < fills@.len() ==> #[trigger] ulid_text(fills@[i].trade_id@)
                    &&& forall|i: int| 0 <= i < fills@.len() ==> {
                        &&& old(self)@.orders.contains_key(#[trigger] fills@[i].maker_order_id@)
                        &&& names_parties(*old(created_order), old(self)@.orders[fills@[i].maker_order_id@], fills@[i].terms())
                    }
                },
            },
            final(created_order).symbol == old(created_order).symbol,
            final(created_order).user_id == old(created_order).user_id,
            final(created_order).order_id == old(created_order).order_id,
            final(created_order).side == old(created_order).side,
            final(created_order).order_type == old(created_order).order_type,
            final(created_order).price == old(created_order).price,
            final(created_order).quantity == old(created_order).quantity,
            final(created_order).timestamp == old(created_order).timestamp,
    {
        let ghost o0 = *created_order;
        let ghost v0 = self@;
        proof {
            self.lemma_wf_view();
        }
        let fills = self.run_rounds(created_order);
        proof {
            law_trades_name_buyer_and_seller(v0, o0);
            law_status_follows_filled_quantity(v0, o0);
            let ts = v0.match_result(o0).trades;
            assert forall|i: int| 0 <= i < fills@.len() implies {
                &&& v0.orders.contains_key(#[trigger] fills@[i].maker_order_id@)
                &&& names_parties(o0, v0.orders[fills@[i].maker_order_id@], fills@[i].terms())
            } by {
                assert(ts == v0.match_rounds(o0, o0.filled_qty, (o0.quantity + v0.orders.dom().len()) as nat).2);
                assert(fills@[i].terms() == ts[i]);
                assert(v0.orders.contains_key(ts[i].maker_order_id));
            }
        }
        if created_order.filled_qty < created_order.quantity {
            match created_order.order_type {
                OrderType::Limit => {
                    let left = created_order.quantity - created_order.filled_qty;
                    let total = self.level_total(created_order.side, created_order.price);
                    if total > u64::MAX - left {
                        return Err(fills);
                    }
                    let new_resting_order = RestingOrder {
                        symbol: created_order.symbol.clone(),
                        order_id: created_order.order_id.clone(),
                        user_id: created_order.user_id.clone(),
                        side: created_order.side,
                        price: created_order.price,
                        qty: left,
                        timestamp: created_order.timestamp,
                    };
                    proof {
                        assert(new_resting_order == remainder(o0, created_order.filled_qty));
                    }
                    self.add_resting_order(new_resting_order);
                },
                OrderType::Market => {
                    created_order.status = OrderStatus::Cancelled;
                },
            }
        } else {
            created_order.status = OrderStatus::Filled;
        }
        Ok(fills)
    }

    /// A snapshot of the book's depth: the best `DEPTH_LEVELS` bid levels, highest price
    /// first, and the best `DEPTH_LEVELS` ask levels, lowest price first, each as its
    /// price and the total quantity resting there.
    pub fn get_depth(&self) -> (res: (Vec<(u64, u64)>, Vec<(u64, u64)>))
        requires
            self.wf(),
        ensures
            self@.depth_of(Side::Buy, res.0@),
            self@.depth_of(Side::Sell, res.1@),
    {
        proof {
            self.lemma_view_levels();
        }
        let bid_prices = ascending_keys(&self.bids);
        let n = bid_prices.len();
        let mut bids: Vec<(u64, u64)> = Vec::new();
        let mut i: usize = 0;
        while i < n && i < DEPTH_LEVELS
            invariant
                self.wf(),
                n == bid_prices@.len(),
                n == self.bids@.dom().len(),
                i <= n,
                i <= DEPTH_LEVELS,
                bids@.len() == i,
                forall|j: int| 0 <= j < n ==> #[trigger] self.bids@.contains_key(bid_prices@[j]),
                forall|j: int| 0 <= j < i ==> #[trigger] bids@[j] == (bid_prices@[n - 1 - j], self@.level_total(Side::Buy, bid_prices@[n - 1 - j]) as u64),
            decreases n - i,
        {
            let p = bid_prices[n - 1 - i];
            let l = self.bids.get(&p).unwrap();
            proof {
                assert(self.levels(Side::Buy).contains_key(p));
                assert(self.level_wf(Side::Buy, p));
                assert(self@.levels(Side::Buy)[p].queue == self.queues(Side::Buy)[p]);
            }
            bids.push((p, l.total_qty));
            i = i + 1;
        }
        let ask_prices = ascending_keys(&self.asks);
        let m = ask_prices.len();
        let mut asks: Vec<(u64, u64)> = Vec::new();
        let mut k: usize = 0;
        while k < m && k < DEPTH_LEVELS
            invariant
                self.wf(),
                m == ask_prices@.len(),
                m == self.asks@.dom().len(),
                k <= m,
                k <= DEPTH_LEVELS,
                asks@.len() == k,
                forall|j: int| 0 <= j < m ==> #[trigger] self.asks@.contains_key(ask_prices@[j]),
                forall|j: int| 0 <= j < k ==> #[trigger] asks@[j] == (ask_prices@[j], self@.level_total(Side::Sell, ask_prices@[j]) as u64),
            decreases m - k,
        {
            let p = ask_prices[k];
            let l = self.asks.get(&p).unwrap();
            proof {
                assert(self.levels(Side::Sell).contains_key(p));
                assert(self.level_wf(Side::Sell, p));
                assert(self@.levels(Side::Sell)[p].queue == self.queues(Side::Sell)[p]);
            }
            asks.push((p, l.total_qty));
            k = k + 1;
        }
        proof {
            let v = self@;
            assert(v.levels(Side::Buy).dom() == self.bids@.dom());
            assert(v.levels(Side::Sell).dom() == self.asks@.dom());
            assert forall|j: int| 0 <= j < bids@.len() implies #[trigger] v.levels(Side::Buy).contains_key(bids@[j].0)
                && bids@[j].1 == v.level_total(Side::Buy, bids@[j].0) by {
                assert(self.bids@.contains_key(bid_prices@[n - 1 - j]));
                assert(self.level_wf(Side::Buy, bid_prices@[n - 1 - j]));
            }
            assert forall|j: int| 0 <= j < asks@.len() implies #[trigger] v.levels(Side::Sell).contains_key(asks@[j].0)
                && asks@[j].1 == v.level_total(Side::Sell, asks@[j].0) by {
                assert(self.asks@.contains_key(ask_prices@[j]));
                assert(self.level_wf(Side::Sell, ask_prices@[j]));
            }
            assert forall|p: u64| #[trigger] v.levels(Side::Buy).contains_key(p) && (forall|j: int| 0 <= j < bids@.len() ==> bids@[j].0 != p)
                implies forall|j: int| 0 <= j < bids@.len() ==> outranks(Side::Buy, bids@[j].0, p) by {
                assert(bid_prices@.contains(p));
                let x = choose|x: int| 0 <= x < n && bid_prices@[x] == p;
                assert forall|j: int| 0 <= j < bids@.len() implies outranks(Side::Buy, bids@[j].0, p) by {
                    if x >= n - bids@.len() {
                        assert(bids@[n - 1 - x].0 == p);
                    }
                }
            }
            assert forall|p: u64| #[trigger] v.levels(Side::Sell).contains_key(p) && (forall|j: int| 0 <= j < asks@.len() ==> asks@[j].0 != p)
                implies forall|j: int| 0 <= j < asks@.len() ==> outranks(Side::Sell, asks@[j].0, p) by {
                assert(ask_prices@.contains(p));
                let x = choose|x: int| 0 <= x < m && ask_prices@[x] == p;
                assert forall|j: int| 0 <= j < asks@.len() implies outranks(Side::Sell, asks@[j].0, p) by {
                    if x < asks@.len() {
                        assert(asks@[x].0 == p);
                    }
                }
            }
        }
        (bids, asks)
    }

    /// The resting order with the given id, if any.
    pub fn get_order(&self, order_id: &str) -> (r: Option<&RestingOrder>)
        requires
            self.wf(),
        ensures
            match r {
                Some(o) => self@.orders.contains_key(order_id@) && *o == self@.orders[order_id@],
                None => !self@.orders.contains_key(order_id@),
            },
    {
        match self.order_nodes.get(order_id) {
            Some(n) => Some(&n.order),
            None => None,
        }
    }

    /// The total quantity resting at one price of one side (0 where there is no level).
    pub fn level_total(&self, side: Side, price: u64) -> (t: u64)
        requires
            self.wf(),
        ensures
            t == self@.level_total(side, price),
    {
        proof {
            self.lemma_view_levels();
        }
        match self.get_level(side, price) {
            Some(l) => {
                proof {
                    assert(self.level_wf(side, price));
                    assert(self@.levels(side)[price].queue == self.queues(side)[price]);
                }
                l.total_qty
            },
            None => 0,
        }
    }
}

} // verus!
