//! Commands from the front end and the replies to them.

use crate::amount::Amount;
use crate::order::Order;
use vstd::prelude::*;

verus! {

pub const CREATE_ORDER: &'static str = "CREATE_ORDER";

pub const CANCEL_ORDER: &'static str = "CANCEL_ORDER";

pub const ON_RAMP: &'static str = "ON_RAMP";

pub const GET_DEPTH: &'static str = "GET_DEPTH";

pub const GET_OPEN_ORDER: &'static str = "GET_OPEN_ORDERS";

/// A command, with the channel on which its sender waits for the reply.
#[derive(Debug, Clone)]
pub enum MessageFromApi {
    CreateOrder { data: CreateOrderData, client_id: String },
    CancelOrder { data: CancelOrderDAta, client_id: String },
    OnRame { data: OnRampData, client_id: String },
    GetDepth { data: GetDepthData, client_id: String },
    GetOpenOrders { data: GetOpenOrdersData, client_id: String },
}

/// A request to place an order. Price and quantity are decimal text, the
/// side is `buy` or `sell`.
#[derive(Debug, Clone)]
pub struct CreateOrderData {
    pub market: String,
    pub price: String,
    pub quantity: String,
    pub side: String,
    pub user_id: String,
}

/// A request to cancel a resting order.
#[derive(Debug, Clone)]
pub struct CancelOrderDAta {
    pub order_id: String,
    pub market: String,
}

/// A deposit of the base currency.
#[derive(Debug, Clone)]
pub struct OnRampData {
    pub amount: String,
    pub user_id: String,
    pub txn_id: String,
}

/// A request for the depth of a market.
#[derive(Debug, Clone)]
pub struct GetDepthData {
    pub market: String,
}

/// A request for a user's resting orders in a market.
#[derive(Debug, Clone)]
pub struct GetOpenOrdersData {
    pub user_id: String,
    pub market: String,
}

/// A reply to a command.
#[derive(Debug, Clone)]
pub enum MessageToApi {
    Depth { payload: DepthPayload },
    OrderPlaced { payload: OrderPlacedPayload },
    OrderCancelled { payload: OrderCancelledPayload },
    OpenOrders { payload: Vec<Order> },
}

/// The depth of a market: for each side the price levels, each a price and
/// the quantity resting at it.
#[derive(Debug, Clone)]
pub struct DepthPayload {
    pub bids: Vec<(String, String)>,
    pub asks: Vec<(String, String)>,
}

/// What became of an order that was placed.
#[derive(Debug, Clone)]
pub struct OrderPlacedPayload {
    pub order_id: String,
    pub executed_qty: Amount,
    pub fills: Vec<FillInfo>,
}

/// One fill of an order, as its owner is told of it.
#[derive(Debug, Clone)]
pub struct FillInfo {
    pub price: String,
    pub qty: String,
    pub trade_id: u64,
}

/// What became of an order that was cancelled or refused.
#[derive(Debug, Clone)]
pub struct OrderCancelledPayload {
    pub order_id: String,
    pub executed_qty: Amount,
    pub remaining_qty: Amount,
}

} // verus!
