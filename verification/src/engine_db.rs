//! The engine's record of order books by symbol and of orders by id.

use vstd::prelude::*;
use vstd::hash_map::StringHashMap;
use crate::order_book::OrderBook;
use crate::types::{Fill, Order, OrderStatus};

verus! {

/// The fills, in order, that name `id` as their maker.
pub open spec fn fills_for(fills: Seq<Fill>, id: Seq<char>) -> Seq<Fill>
    decreases fills.len(),
{
    if fills.len() == 0 {
        Seq::empty()
    } else {
        let rest = fills_for(fills.drop_last(), id);
        if fills.last().maker_order_id@ == id {
            rest.push(fills.last())
        } else {
            rest
        }
    }
}

/// The total quantity of some fills.
pub open spec fn qty_sum(fills: Seq<Fill>) -> nat
    decreases fills.len(),
{
    if fills.len() == 0 {
        0
    } else {
        (qty_sum(fills.drop_last()) + fills.last().quantity) as nat
    }
}

/// `n` is order `o` after recording fills `fs` as a maker: the fills are appended, their
/// quantity is added, and the status is partially filled or filled by the new filled
/// quantity (unchanged where there are no fills); nothing else changes.
pub open spec fn after_fills(o: Order, n: Order, fs: Seq<Fill>) -> bool {
    &&& n.symbol == o.symbol
    &&& n.user_id == o.user_id
    &&& n.order_id == o.order_id
    &&& n.side == o.side
    &&& n.order_type == o.order_type
    &&& n.price == o.price
    &&& n.quantity == o.quantity
    &&& n.timestamp == o.timestamp
    &&& n.filled@ == o.filled@ + fs
    &&& n.filled_qty == o.filled_qty + qty_sum(fs)
    &&& n.status == if fs.len() == 0 {
        o.status
    } else if n.filled_qty < o.quantity {
        OrderStatus::PartiallyFilled
    } else {
        OrderStatus::Filled
    }
}

/// The engine's books by symbol and orders by id.
pub struct EngineDB {
    pub orderbooks: StringHashMap<OrderBook>,
    pub orders: StringHashMap<Order>,
}

impl EngineDB {
    /// Creates an engine with no books and no orders.
    pub fn new() -> (db: Self)
        ensures
            db.orderbooks@ == Map::<Seq<char>, OrderBook>::empty(),
            db.orders@ == Map::<Seq<char>, Order>::empty(),
    {
        EngineDB { orderbooks: StringHashMap::new(), orders: StringHashMap::new() }
    }

    /// Records fills on their maker orders, in order: each fill whose maker is a known
    /// order is appended to that order's fills and adds its quantity; the order is then
    /// partially filled, or filled once the filled quantity reaches the order's quantity.
    /// Fills of unknown makers are skipped.
    pub fn fill_order(&mut self, fills: Vec<Fill>)
        requires
            forall|id: Seq<char>| #[trigger] old(self).orders@.contains_key(id)
                ==> old(self).orders@[id].filled_qty + qty_sum(fills_for(fills@, id)) <= u64::MAX,
        ensures
            final(self).orderbooks@ == old(self).orderbooks@,
            final(self).orders@.dom() == old(self).orders@.dom(),
            forall|id: Seq<char>| #[trigger] old(self).orders@.contains_key(id)
                ==> after_fills(old(self).orders@[id], final(self).orders@[id], fills_for(fills@, id)),
            forall|id: Seq<char>| #[trigger] old(self).orders@.contains_key(id) && fills_for(fills@, id).len() > 0 ==> {
                let n = final(self).orders@[id];
                &&& n.filled_qty == old(self).orders@[id].filled_qty + qty_sum(fills_for(fills@, id))
                &&& (n.status == OrderStatus::Filled) == (n.filled_qty >= n.quantity)
                &&& (n.status == OrderStatus::PartiallyFilled) == (n.filled_qty < n.quantity)
            },
    {
        let ghost m0 = self.orders@;
        let n = fills.len();
        let mut i: usize = 0;
        proof {
            assert(fills@.take(0) =~= Seq::<Fill>::empty());
            assert forall|id: Seq<char>| #[trigger] m0.contains_key(id) implies after_fills(m0[id], self.orders@[id], fills_for(fills@.take(0), id)) by {
                assert(m0[id].filled@ + Seq::<Fill>::empty() =~= m0[id].filled@);
            }
        }
        while i < n
            invariant
                n == fills@.len(),
                i <= n,
                self.orderbooks@ == old(self).orderbooks@,
                m0 == old(self).orders@,
                self.orders@.dom() == m0.dom(),
                forall|id: Seq<char>| #[trigger] m0.contains_key(id)
                    ==> m0[id].filled_qty + qty_sum(fills_for(fills@, id)) <= u64::MAX,
                forall|id: Seq<char>| #[trigger] m0.contains_key(id)
                    ==> after_fills(m0[id], self.orders@[id], fills_for(fills@.take(i as int), id)),
            decreases n - i,
        {
            let val = &fills[i];
            let ghost prefix = fills@.take(i as int);
            let ghost next = fills@.take(i + 1);
            proof {
                assert(next.drop_last() =~= prefix);
                assert(next.last() == *val);
            }
            let ghost before = self.orders@;
            match self.orders.get(val.maker_order_id.as_str()) {
                Some(maker) => {
                    let ghost id = val.maker_order_id@;
                    proof {
                        lemma_fills_for_prefix_sum(fills@, i as int + 1, id);
                        assert(m0.contains_key(id));
                        assert(fills_for(next, id) == fills_for(prefix, id).push(*val));
                        assert(fills_for(prefix, id).push(*val).drop_last() =~= fills_for(prefix, id));
                        assert(qty_sum(fills_for(next, id)) == qty_sum(fills_for(prefix, id)) + val.quantity);
                        assert(after_fills(m0[id], before[id], fills_for(prefix, id)));
                    }
                    let mut filled = maker.filled.clone();
                    proof {
                        assert(filled@ =~= maker.filled@) by {
                            assert forall|j: int| 0 <= j < filled@.len() implies filled@[j] == maker.filled@[j] by {
                                assert(vstd::pervasive::cloned::<Fill>(maker.filled@[j], filled@[j]));
                            }
                        }
                    }
                    filled.push(val.clone());
                    let filled_qty = maker.filled_qty + val.quantity;
                    let status = if filled_qty < maker.quantity {
                        OrderStatus::PartiallyFilled
                    } else {
                        OrderStatus::Filled
                    };
                    let updated = Order {
                        symbol: maker.symbol.clone(),
                        user_id: maker.user_id.clone(),
                        order_id: maker.order_id.clone(),
                        side: maker.side,
                        order_type: maker.order_type,
                        price: maker.price,
                        quantity: maker.quantity,
                        filled_qty,
                        filled,
                        timestamp: maker.timestamp,
                        status,
                    };
                    self.orders.insert(val.maker_order_id.clone(), updated);
                    proof {
                        assert forall|k: Seq<char>| #[trigger] m0.contains_key(k) implies after_fills(m0[k], self.orders@[k], fills_for(next, k)) by {
                            assert(after_fills(m0[k], before[k], fills_for(prefix, k)));
                            if k == id {
                                assert(m0[k].filled@ + fills_for(next, k) =~= (m0[k].filled@ + fills_for(prefix, k)).push(*val));
                            }
                        }
                    }
                },
                None => {
                    proof {
                        assert forall|k: Seq<char>| #[trigger] m0.contains_key(k) implies after_fills(m0[k], self.orders@[k], fills_for(next, k)) by {
                            assert(k != val.maker_order_id@);
                            assert(fills_for(next, k) == fills_for(prefix, k));
                        }
                    }
                },
            }
            i = i + 1;
        }
        proof {
            assert(fills@.take(n as int) =~= fills@);
            assert forall|id: Seq<char>| #[trigger] m0.contains_key(id) && fills_for(fills@, id).len() > 0 implies {
                let o = self.orders@[id];
                &&& o.filled_qty == m0[id].filled_qty + qty_sum(fills_for(fills@, id))
                &&& (o.status == OrderStatus::Filled) == (o.filled_qty >= o.quantity)
                &&& (o.status == OrderStatus::PartiallyFilled) == (o.filled_qty < o.quantity)
            } by {
                law_recorded_status_follows_filled_qty(m0[id], self.orders@[id], fills_for(fills@, id));
            }
        }
    }
}

/// A maker order that has received fills is `Filled` exactly when its filled quantity,
/// what it had plus all the fills' quantities, reaches its quantity, and `PartiallyFilled`
/// otherwise, whatever the sizes of the single fills.
pub proof fn law_recorded_status_follows_filled_qty(o: Order, n: Order, fs: Seq<Fill>)
    requires
        after_fills(o, n, fs),
        fs.len() > 0,
    ensures
        n.filled_qty == o.filled_qty + qty_sum(fs),
        n.quantity == o.quantity,
        (n.status == OrderStatus::Filled) == (n.filled_qty >= n.quantity),
        (n.status == OrderStatus::PartiallyFilled) == (n.filled_qty < n.quantity),
{
}

/// The quantity recorded for a maker over a prefix of the fills is at most that over all
/// of them.
pub proof fn lemma_fills_for_prefix_sum(fills: Seq<Fill>, k: int, id: Seq<char>)
    requires
        0 <= k <= fills.len(),
    ensures
        qty_sum(fills_for(fills.take(k), id)) <= qty_sum(fills_for(fills, id)),
    decreases fills.len() - k,
{
    if k < fills.len() {
        lemma_fills_for_prefix_sum(fills, k + 1, id);
        let a = fills.take(k + 1);
        assert(a.drop_last() =~= fills.take(k));
        let fa = fills_for(a.drop_last(), id);
        if a.last().maker_order_id@ == id {
            assert(fa.push(a.last()).drop_last() =~= fa);
        }
    } else {
        assert(fills.take(k) =~= fills);
    }
}

} // verus!
