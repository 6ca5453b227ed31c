//! The balance book: what each user holds of each asset, available and locked.

use vstd::prelude::*;
use vstd::hash_map::StringHashMap;
use crate::errors::EngineError;
use crate::symbol::{split_symbol, symbol_parts};
use crate::types::{BalanceEvent, BalancePool, Side, SymbolBalance};

verus! {

/// The balances of all users: user id to asset to balance.
pub type Balances = Map<Seq<char>, Map<Seq<char>, SymbolBalance>>;

/// A balance with nothing in either pool.
pub open spec fn zero_balance() -> SymbolBalance {
    SymbolBalance { available: 0, locked: 0 }
}

/// The balance `u` holds of asset `s`; nothing where there is no entry.
pub open spec fn balance_of(bals: Balances, u: Seq<char>, s: Seq<char>) -> SymbolBalance {
    if bals.contains_key(u) && bals[u].contains_key(s) {
        bals[u][s]
    } else {
        zero_balance()
    }
}

/// The balances with an entry for `u`, empty where there was none.
pub open spec fn with_user(bals: Balances, u: Seq<char>) -> Balances {
    if bals.contains_key(u) {
        bals
    } else {
        bals.insert(u, Map::empty())
    }
}

/// The balances with the entry of `u` for asset `s` set to `b`.
pub open spec fn with_balance(bals: Balances, u: Seq<char>, s: Seq<char>, b: SymbolBalance) -> Balances {
    let m = with_user(bals, u);
    m.insert(u, m[u].insert(s, b))
}

/// The pool `pool` of `b` holds at least `amount`.
pub open spec fn covers(b: SymbolBalance, pool: BalancePool, amount: u64) -> bool {
    match pool {
        BalancePool::Available => b.available >= amount,
        BalancePool::Locked => b.locked >= amount,
    }
}

/// `b` with `amount` taken out of pool `pool`, which holds at least that much.
pub open spec fn debited(b: SymbolBalance, pool: BalancePool, amount: u64) -> SymbolBalance {
    match pool {
        BalancePool::Available => SymbolBalance { available: (b.available - amount) as u64, ..b },
        BalancePool::Locked => SymbolBalance { locked: (b.locked - amount) as u64, ..b },
    }
}

/// `b` with `amount` put into pool `pool`, stopping at the largest `u64`.
pub open spec fn credited(b: SymbolBalance, pool: BalancePool, amount: u64) -> SymbolBalance {
    match pool {
        BalancePool::Available => SymbolBalance { available: b.available.saturating_add(amount), ..b },
        BalancePool::Locked => SymbolBalance { locked: b.locked.saturating_add(amount), ..b },
    }
}

/// The error a debit of `amount` from pool `pool` of `b` is refused with.
pub open spec fn shortfall(b: SymbolBalance, pool: BalancePool, amount: u64) -> EngineError {
    match pool {
        BalancePool::Available => EngineError::InsufficientAvailableBalanced { required: amount, available: b.available },
        BalancePool::Locked => EngineError::InsufficientLockedBalanced { required: amount, locked: b.locked },
    }
}

/// The balances after a debit of `amount` from pool `pool` of `u`'s `s`: taken where the
/// pool covers it, and otherwise left as it was; either way the entry then exists.
pub open spec fn deduct_model(bals: Balances, u: Seq<char>, s: Seq<char>, amount: u64, pool: BalancePool) -> Balances {
    let b = balance_of(bals, u, s);
    with_balance(bals, u, s, if covers(b, pool, amount) { debited(b, pool, amount) } else { b })
}

/// The balances after a credit of `amount` to pool `pool` of `u`'s `s`.
pub open spec fn add_model(bals: Balances, u: Seq<char>, s: Seq<char>, amount: u64, pool: BalancePool) -> Balances {
    with_balance(bals, u, s, credited(balance_of(bals, u, s), pool, amount))
}

/// The asset an order on `side` of symbol (`base`, `quote`) reserves, and how much.
pub open spec fn reservation(side: Side, base: Seq<char>, quote: Seq<char>, price: u64, quantity: u64) -> (Seq<char>, u64) {
    match side {
        Side::Buy => (quote, (price * quantity) as u64),
        Side::Sell => (base, quantity),
    }
}

/// The balances after `u` locks the funds of an order on `side` of `symbol`: nothing
/// changes for a symbol without exactly one underscore; otherwise the reserved amount
/// moves from the available pool to the locked pool of the reserved asset where the
/// available pool covers it, and the entry is only opened where it does not.
pub open spec fn lock_model(bals: Balances, u: Seq<char>, symbol: Seq<char>, side: Side, price: u64, quantity: u64) -> Balances {
    match symbol_parts(symbol) {
        None => bals,
        Some(parts) => {
            let asset = reservation(side, parts.0, parts.1, price, quantity).0;
            let amount = reservation(side, parts.0, parts.1, price, quantity).1;
            let d = deduct_model(bals, u, asset, amount, BalancePool::Available);
            if balance_of(bals, u, asset).available >= amount {
                add_model(d, u, asset, amount, BalancePool::Locked)
            } else {
                d
            }
        },
    }
}

/// The balances after a trade of `quantity` at `price` on (`base`, `quote`): the buyer's
/// locked quote pays (where it covers the cost) and the buyer gains the base; the seller
/// gains the quote and the seller's locked base is delivered (where it covers it).
pub open spec fn settle_model(
    bals: Balances,
    base: Seq<char>,
    quote: Seq<char>,
    price: u64,
    quantity: u64,
    buyer: Seq<char>,
    seller: Seq<char>,
) -> Balances {
    let paying = (quantity * price) as u64;
    let b1 = deduct_model(bals, buyer, quote, paying, BalancePool::Locked);
    let b2 = add_model(b1, buyer, base, quantity, BalancePool::Available);
    let b3 = add_model(b2, seller, quote, paying, BalancePool::Available);
    deduct_model(b3, seller, base, quantity, BalancePool::Locked)
}

/// The balances after a cancelled order gives back `amount` of `u`'s `s`: the user gets an
/// entry; where the asset has one, `amount` leaves the locked pool (down to zero) and joins
/// the available pool.
pub open spec fn release_model(bals: Balances, u: Seq<char>, s: Seq<char>, amount: u64) -> Balances {
    let m = with_user(bals, u);
    if m[u].contains_key(s) {
        let b = m[u][s];
        m.insert(u, m[u].insert(s, SymbolBalance {
            available: (b.available + amount) as u64,
            locked: b.locked.saturating_sub(amount),
        }))
    } else {
        m
    }
}

/// The balances after an event, where the event has a meaning: a fill on a symbol without
/// exactly one underscore changes nothing.
pub open spec fn event_model(bals: Balances, event: BalanceEvent) -> Balances {
    match event {
        BalanceEvent::Fill { symbol, price, quantity, buy_user_id, sell_user_id } => match symbol_parts(symbol@) {
            None => bals,
            Some(parts) => settle_model(bals, parts.0, parts.1, price, quantity, buy_user_id@, sell_user_id@),
        },
        BalanceEvent::CancelOrder { user_id, symbol, amount } => release_model(bals, user_id@, symbol@, amount),
    }
}

/// Applying the event stays within `u64`: a fill's cost, and a release into an existing
/// available pool.
pub open spec fn event_fits(bals: Balances, event: BalanceEvent) -> bool {
    match event {
        BalanceEvent::Fill { symbol, price, quantity, .. } => symbol_parts(symbol@) is Some ==> quantity * price <= u64::MAX,
        BalanceEvent::CancelOrder { user_id, symbol, amount } => {
            let b = balance_of(bals, user_id@, symbol@);
            (bals.contains_key(user_id@) && bals[user_id@].contains_key(symbol@)) ==> b.available + amount <= u64::MAX
        },
    }
}

/// The balance book of the engine.
pub struct BalanceActor {
    user_slots: StringHashMap<usize>,
    accounts: Vec<StringHashMap<SymbolBalance>>,
}

impl View for BalanceActor {
    type V = Balances;

    closed spec fn view(&self) -> Balances {
        Map::new(
            |u: Seq<char>| self.user_slots@.contains_key(u),
            |u: Seq<char>| self.accounts@[self.user_slots@[u] as int]@,
        )
    }
}

impl BalanceActor {
    /// Each user has a slot of its own among the accounts.
    pub closed spec fn wf(&self) -> bool {
        &&& self.user_slots@.dom().finite()
        &&& forall|u: Seq<char>| #[trigger] self.user_slots@.contains_key(u) ==> self.user_slots@[u] < self.accounts@.len()
        &&& forall|u1: Seq<char>, u2: Seq<char>|
            #[trigger] self.user_slots@.contains_key(u1) && #[trigger] self.user_slots@.contains_key(u2)
                && self.user_slots@[u1] == self.user_slots@[u2] ==> u1 == u2
    }

    /// A consistent balance book holds finitely many users.
    pub proof fn lemma_finite_users(&self)
        requires
            self.wf(),
        ensures
            self@.dom().finite(),
    {
        assert(self@.dom() =~= self.user_slots@.dom());
    }

    /// Creates an empty balance book.
    pub fn new() -> (actor: Self)
        ensures
            actor.wf(),
            actor@ == Balances::empty(),
    {
        let actor = BalanceActor { user_slots: StringHashMap::new(), accounts: Vec::new() };
        proof {
            assert(actor@ =~= Balances::empty());
        }
        actor
    }

    /// The slot of a user's accounts, opening an empty one for a new user.
    fn slot_for(&mut self, user_id: &str) -> (slot: usize)
        requires
            old(self).wf(),
        ensures
            final(self).wf(),
            final(self)@ == with_user(old(self)@, user_id@),
            final(self).user_slots@.contains_key(user_id@),
            final(self).user_slots@[user_id@] == slot,
            slot < final(self).accounts@.len(),
    {
        match self.user_slots.get(user_id) {
            Some(s) => {
                let s = *s;
                proof {
                    assert(self@ =~= with_user(self@, user_id@));
                }
                s
            },
            None => {
                let ghost v0 = self@;
                let slot = self.accounts.len();
                proof {
                    assert forall|u: Seq<char>| #[trigger] self.user_slots@.contains_key(u) implies self.user_slots@[u] != slot by {}
                }
                self.accounts.push(StringHashMap::new());
                self.user_slots.insert(user_id.to_owned(), slot);
                proof {
                    assert(self@ =~= v0.insert(user_id@, Map::empty())) by {
                        assert forall|u: Seq<char>| #[trigger] self@.contains_key(u) implies self@[u] == v0.insert(user_id@, Map::empty())[u] by {
                            if u != user_id@ {
                                assert(self.accounts@[self.user_slots@[u] as int] == old(self).accounts@[old(self).user_slots@[u] as int]);
                            }
                        }
                    }
                }
                slot
            },
        }
    }

    /// Sets the balance of one asset of the user in `slot`.
    fn put_balance(&mut self, slot: usize, Ghost(u): Ghost<Seq<char>>, symbol: &str, b: SymbolBalance)
        requires
            old(self).wf(),
            old(self).user_slots@.contains_key(u),
            old(self).user_slots@[u] == slot,
        ensures
            final(self).wf(),
            final(self).user_slots@ == old(self).user_slots@,
            final(self)@ == old(self)@.insert(u, old(self)@[u].insert(symbol@, b)),
    {
        let ghost v0 = self@;
        self.accounts[slot].insert(symbol.to_owned(), b);
        proof {
            assert(self@ =~= v0.insert(u, v0[u].insert(symbol@, b))) by {
                assert forall|x: Seq<char>| #[trigger] self@.contains_key(x) implies self@[x] == v0.insert(u, v0[u].insert(symbol@, b))[x] by {
                    if x != u {
                        assert(self.user_slots@[x] != slot);
                    }
                }
            }
        }
    }

    /// The balance of one asset of one user: `UserNotFound` where the user has no entry,
    /// `InvalidSymbol` where the user has none for the asset.
    pub fn get_balance(&self, user_id: &str, symbol: &str) -> (r: Result<SymbolBalance, EngineError>)
        requires
            self.wf(),
        ensures
            match r {
                Ok(b) => self@.contains_key(user_id@) && self@[user_id@].contains_key(symbol@)
                    && b == self@[user_id@][symbol@],
                Err(EngineError::UserNotFound { user_id: u }) => !self@.contains_key(user_id@) && u@ == user_id@,
                Err(EngineError::InvalidSymbol { symbol: s }) => self@.contains_key(user_id@)
                    && !self@[user_id@].contains_key(symbol@) && s@ == symbol@,
                Err(_) => false,
            },
    {
        let slot = match self.user_slots.get(user_id) {
            None => {
                return Err(EngineError::UserNotFound { user_id: user_id.to_owned() });
            },
            Some(s) => *s,
        };
        match self.accounts[slot].get(symbol) {
            None => Err(EngineError::InvalidSymbol { symbol: symbol.to_owned() }),
            Some(b) => Ok(*b),
        }
    }

    /// Takes `amount` out of one pool of a user's asset, giving the user and the asset an
    /// entry where they had none; refused, with nothing taken, where the pool holds less.
    pub fn deduct(&mut self, user_id: &str, symbol: &str, amount: u64, balance_pool: BalancePool) -> (r: Result<(), EngineError>)
        requires
            old(self).wf(),
        ensures
            final(self).wf(),
            final(self)@ == deduct_model(old(self)@, user_id@, symbol@, amount, balance_pool),
            ({
                let b = balance_of(old(self)@, user_id@, symbol@);
                r == if covers(b, balance_pool, amount) { Ok(()) } else { Err(shortfall(b, balance_pool, amount)) }
            }),
    {
        let ghost v0 = self@;
        let slot = self.slot_for(user_id);
        let balance = match self.accounts[slot].get(symbol) {
            Some(b) => *b,
            None => SymbolBalance { available: 0, locked: 0 },
        };
        proof {
            assert(self@.contains_key(user_id@));
            assert(self@[user_id@] == self.accounts@[slot as int]@);
            assert(self@ == with_user(v0, user_id@));
            assert(balance == balance_of(v0, user_id@, symbol@));
        }
        match balance_pool {
            BalancePool::Available => {
                if balance.available >= amount {
                    let updated = SymbolBalance { available: balance.available.saturating_sub(amount), ..balance };
                    self.put_balance(slot, Ghost(user_id@), symbol, updated);
                    Ok(())
                } else {
                    self.put_balance(slot, Ghost(user_id@), symbol, balance);
                    Err(EngineError::InsufficientAvailableBalanced { required: amount, available: balance.available })
                }
            },
            BalancePool::Locked => {
                if balance.locked >= amount {
                    let updated = SymbolBalance { locked: balance.locked.saturating_sub(amount), ..balance };
                    self.put_balance(slot, Ghost(user_id@), symbol, updated);
                    Ok(())
                } else {
                    self.put_balance(slot, Ghost(user_id@), symbol, balance);
                    Err(EngineError::InsufficientLockedBalanced { required: amount, locked: balance.locked })
                }
            },
        }
    }

    /// Puts `amount` into one pool of a user's asset, stopping at the largest `u64`, and
    /// giving the user and the asset an entry where they had none.
    pub fn add(&mut self, user_id: &str, symbol: &str, amount: u64, balance_pool: BalancePool)
        requires
            old(self).wf(),
        ensures
            final(self).wf(),
            final(self)@ == add_model(old(self)@, user_id@, symbol@, amount, balance_pool),
    {
        let ghost v0 = self@;
        let slot = self.slot_for(user_id);
        let balance = match self.accounts[slot].get(symbol) {
            Some(b) => *b,
            None => SymbolBalance { available: 0, locked: 0 },
        };
        proof {
            assert(self@.contains_key(user_id@));
            assert(self@[user_id@] == self.accounts@[slot as int]@);
            assert(self@ == with_user(v0, user_id@));
            assert(balance == balance_of(v0, user_id@, symbol@));
        }
        let updated = match balance_pool {
            BalancePool::Available => SymbolBalance { available: balance.available.saturating_add(amount), ..balance },
            BalancePool::Locked => SymbolBalance { locked: balance.locked.saturating_add(amount), ..balance },
        };
        self.put_balance(slot, Ghost(user_id@), symbol, updated);
    }

    /// Reserves the funds an order needs: for a buy, `price * quantity` of the quote
    /// asset; for a sell, `quantity` of the base asset. The amount moves from the
    /// available pool to the locked pool. Refused with `InvalidSymbol` where the symbol
    /// does not have exactly one underscore (nothing changes), and with
    /// `InsufficientAvailableBalanced` where too little is available (the user and asset
    /// then have entries, with the balance unchanged).
    pub fn check_and_lock(&mut self, user_id: &str, symbol: &str, side: Side, price: u64, quantity: u64) -> (r: Result<(), EngineError>)
        requires
            old(self).wf(),
            (side == Side::Buy && symbol_parts(symbol@) is Some) ==> price * quantity <= u64::MAX,
        ensures
            final(self).wf(),
            final(self)@ == lock_model(old(self)@, user_id@, symbol@, side, price, quantity),
            match symbol_parts(symbol@) {
                None => final(self)@ == old(self)@ && (r matches Err(EngineError::InvalidSymbol { symbol: s }) && s@ == symbol@),
                Some(parts) => {
                    let asset = reservation(side, parts.0, parts.1, price, quantity).0;
                    let amount = reservation(side, parts.0, parts.1, price, quantity).1;
                    let b = balance_of(old(self)@, user_id@, asset);
                    if b.available >= amount {
                        &&& r == Ok::<(), EngineError>(())
                        &&& final(self)@ == add_model(
                            deduct_model(old(self)@, user_id@, asset, amount, BalancePool::Available),
                            user_id@,
                            asset,
                            amount,
                            BalancePool::Locked,
                        )
                    } else {
                        &&& r == Err::<(), EngineError>(EngineError::InsufficientAvailableBalanced { required: amount, available: b.available })
                        &&& final(self)@ == deduct_model(old(self)@, user_id@, asset, amount, BalancePool::Available)
                    }
                },
            },
    {
        let (base, quote) = match split_symbol(symbol) {
            None => {
                return Err(EngineError::InvalidSymbol { symbol: symbol.to_owned() });
            },
            Some(parts) => parts,
        };
        let (locking_symbol, amount) = match side {
            Side::Buy => (quote, price * quantity),
            Side::Sell => (base, quantity),
        };
        match self.deduct(user_id, locking_symbol.as_str(), amount, BalancePool::Available) {
            Ok(()) => {
                self.add(user_id, locking_symbol.as_str(), amount, BalancePool::Locked);
                Ok(())
            },
            Err(EngineError::InsufficientAvailableBalanced { required, available }) => {
                Err(EngineError::InsufficientAvailableBalanced { required, available })
            },
            Err(e) => {
                proof {
                    assert(false);
                }
                Err(e)
            },
        }
    }

    /// Applies an event from a symbol's matching. A fill on `BASE_QUOTE` between a buyer
    /// and a seller: the buyer's locked quote pays `quantity * price` (where it covers
    /// that), the buyer gains `quantity` base, the seller gains the payment, and the
    /// seller's locked base gives up `quantity` (where it covers that); a fill on a symbol
    /// without exactly one underscore is ignored. A cancelled order's `amount` leaves the
    /// locked pool (down to zero) and returns to the available pool, where the user holds
    /// the asset.
    pub fn handle_event(&mut self, event: BalanceEvent)
        requires
            old(self).wf(),
            event_fits(old(self)@, event),
        ensures
            final(self).wf(),
            final(self)@ == event_model(old(self)@, event),
    {
        match event {
            BalanceEvent::Fill { symbol, price, quantity, buy_user_id, sell_user_id } => {
                let (get, from) = match split_symbol(symbol.as_str()) {
                    None => {
                        return;
                    },
                    Some(parts) => parts,
                };
                let buyer_paying = quantity * price;
                let _ = self.deduct(buy_user_id.as_str(), from.as_str(), buyer_paying, BalancePool::Locked);
                self.add(buy_user_id.as_str(), get.as_str(), quantity, BalancePool::Available);
                self.add(sell_user_id.as_str(), from.as_str(), buyer_paying, BalancePool::Available);
                let _ = self.deduct(sell_user_id.as_str(), get.as_str(), quantity, BalancePool::Locked);
            },
            BalanceEvent::CancelOrder { user_id, symbol, amount } => {
                let ghost v0 = self@;
                let slot = self.slot_for(user_id.as_str());
                let found = match self.accounts[slot].get(symbol.as_str()) {
                    Some(b) => Some(*b),
                    None => None,
                };
                proof {
                    assert(self@[user_id@] == self.accounts@[slot as int]@);
                }
                match found {
                    Some(balance) => {
                        let updated = SymbolBalance {
                            locked: balance.locked.saturating_sub(amount),
                            available: balance.available + amount,
                        };
                        self.put_balance(slot, Ghost(user_id@), symbol.as_str(), updated);
                    },
                    None => {},
                }
            },
        }
    }
}

} // verus!
