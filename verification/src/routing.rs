//! Where the engine sends each command it reads.

use vstd::prelude::*;
use crate::types::EngineCommand;

verus! {

/// Where a command goes: the symbol whose actor handles it, and whether the balance book
/// must first lock the funds it needs.
#[derive(Debug)]
pub struct Route {
    pub symbol: String,
    pub lock_first: bool,
}

/// Routes a command: a placement goes to its symbol's actor only once the balance book
/// has locked its funds; a cancellation or a depth request goes straight to its symbol's
/// actor.
pub fn route(cmd: &EngineCommand) -> (r: Route)
    ensures
        match *cmd {
            EngineCommand::PlaceOrder { symbol, .. } => r.symbol@ == symbol@ && r.lock_first,
            EngineCommand::CancelOrder { symbol, .. } => r.symbol@ == symbol@ && !r.lock_first,
            EngineCommand::GetOrderBook { symbol } => r.symbol@ == symbol@ && !r.lock_first,
        },
{
    match cmd {
        EngineCommand::PlaceOrder { symbol, .. } => Route { symbol: symbol.clone(), lock_first: true },
        EngineCommand::CancelOrder { symbol, .. } => Route { symbol: symbol.clone(), lock_first: false },
        EngineCommand::GetOrderBook { symbol } => Route { symbol: symbol.clone(), lock_first: false },
    }
}

} // verus!
