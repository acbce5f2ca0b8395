//! What the engine asks the persistence worker to record.

use crate::amount::Amount;
use vstd::prelude::*;

verus! {

pub const TRADE_ADDED: &'static str = "TRADE_ADDED";

pub const ORDER_UPDATE: &'static str = "ORDER_UPDATE";

#[derive(Debug, Clone)]
pub enum DbMessage {
    TradeAdded { data: TradeAddedData },
    OrderUpdate { data: OrderUpdateData },
}

/// A trade to record.
#[derive(Debug, Clone)]
pub struct TradeAddedData {
    pub id: String,
    pub is_buyer_maket: bool,
    pub price: String,
    pub quantity: String,
    pub quote_quantity: String,
    pub timestamp: u64,
    pub market: String,
}

/// A change to an order. The update of an incoming order carries its
/// market, price, quantity and side; that of a resting order only the
/// quantity that traded.
#[derive(Debug, Clone)]
pub struct OrderUpdateData {
    pub order_id: String,
    pub executed_qty: Amount,
    pub market: Option<String>,
    pub price: Option<String>,
    pub quantity: Option<String>,
    pub side: Option<String>,
}

} // verus!
