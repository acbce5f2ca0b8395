//! The requests of the front end, and the commands that it sends the
//! engine for them.

use crate::events::side_text;
use crate::order::OrderSide;
use crate::types::api::{
    CancelOrderDAta, CreateOrderData, GetOpenOrdersData, MessageFromApi,
};
use vstd::prelude::*;

verus! {

/// A request to place an order.
#[derive(Debug)]
pub struct CreateOrderRequest {
    pub market: String,
    pub price: String,
    pub quantity: String,
    pub side: OrderSide,
    pub user_id: String,
}

/// A request to cancel an order.
#[derive(Debug)]
pub struct CancelOrderRequest {
    pub order_id: String,
    pub market: String,
}

/// A request for a user's resting orders.
#[derive(Debug)]
pub struct GetOpenOrdersQuery {
    pub user_id: String,
    pub market: String,
}

/// The command that places the order of `data`, with the reply to go to
/// `client_id`.
pub fn create_order(data: CreateOrderRequest, client_id: String) -> (message: MessageFromApi)
    ensures
        message matches MessageFromApi::CreateOrder { data: sent, client_id: channel } && {
            &&& channel@ == client_id@
            &&& sent.market@ == data.market@
            &&& sent.price@ == data.price@
            &&& sent.quantity@ == data.quantity@
            &&& sent.side@ == side_text(data.side)
            &&& sent.user_id@ == data.user_id@
        },
{
    let side = match data.side {
        OrderSide::Buy => "buy".to_string(),
        OrderSide::Sell => "sell".to_string(),
    };
    MessageFromApi::CreateOrder {
        data: CreateOrderData {
            market: data.market,
            price: data.price,
            quantity: data.quantity,
            side,
            user_id: data.user_id,
        },
        client_id,
    }
}

/// The command that cancels the order of `data`, with the reply to go to
/// `client_id`.
pub fn cancel_order(data: CancelOrderRequest, client_id: String) -> (message: MessageFromApi)
    ensures
        message matches MessageFromApi::CancelOrder { data: sent, client_id: channel } && {
            &&& channel@ == client_id@
            &&& sent.order_id@ == data.order_id@
            &&& sent.market@ == data.market@
        },
{
    MessageFromApi::CancelOrder {
        data: CancelOrderDAta { order_id: data.order_id, market: data.market },
        client_id,
    }
}

/// The command that asks for the resting orders of `query`, with the reply
/// to go to `client_id`.
pub fn get_open_orders(query: GetOpenOrdersQuery, client_id: String) -> (message: MessageFromApi)
    ensures
        message matches MessageFromApi::GetOpenOrders { data: sent, client_id: channel } && {
            &&& channel@ == client_id@
            &&& sent.user_id@ == query.user_id@
            &&& sent.market@ == query.market@
        },
{
    MessageFromApi::GetOpenOrders {
        data: GetOpenOrdersData { user_id: query.user_id, market: query.market },
        client_id,
    }
}

} // verus!
