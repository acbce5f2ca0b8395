//! What the engine publishes on the market-data streams.

use vstd::prelude::*;

verus! {

#[derive(Debug, Clone)]
pub enum WsMessage {
    TickerUpdate(TicketUpdateMessage),
    DepthUpdate(DepthUpdateMessage),
    TradeAdded(TradeAddedMessage),
}

#[derive(Debug, Clone)]
pub struct TicketUpdateMessage {
    pub stream: String,
    pub data: TickerUpdateData,
}

#[allow(non_snake_case)]
#[derive(Debug, Clone)]
pub struct TickerUpdateData {
    pub c: Option<String>,
    pub h: Option<String>,
    pub l: Option<String>,
    pub v: Option<String>,
    pub V: Option<String>,
    pub s: Option<String>,
    pub id: u64,
    pub e: String,
}

/// A change of depth on the stream `depth@` followed by the market's name.
#[derive(Debug, Clone)]
pub struct DepthUpdateMessage {
    pub stream: String,
    pub data: DepthUpdateData,
}

/// The price levels that changed, bids in `b` and asks in `a`, each with
/// the quantity that rests at it now.
#[derive(Debug, Clone)]
pub struct DepthUpdateData {
    pub b: Option<Vec<(String, String)>>,
    pub a: Option<Vec<(String, String)>>,
    pub e: String,
}

#[derive(Debug, Clone)]
pub struct TradeUpdateMessage {
    pub stream: String,
    pub data: TradeUpdateData,
}

#[derive(Debug, Clone)]
pub struct TradeUpdateData {
    pub e: String,
    pub t: u64,
    pub m: bool,
    pub p: String,
    pub q: String,
    pub s: String,
}

/// A trade on the stream `trade@` followed by the market's name.
#[derive(Debug, Clone)]
pub struct TradeAddedMessage {
    pub stream: String,
    pub data: WsTradeAddedData,
}

/// A trade: its id `t`, price `p` and quantity `q`, the market `s`, and in
/// `m` whether the resting order was the incoming order's own user's.
#[derive(Debug, Clone)]
pub struct WsTradeAddedData {
    pub e: String,
    pub t: u64,
    pub m: bool,
    pub p: String,
    pub q: String,
    pub s: String,
}

} // verus!
