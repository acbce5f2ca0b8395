//! What the engine tells the outside of a command that it has applied:
//! the fills in a reply, the records for the persistence worker, and the
//! trades and depth changes for the market-data streams.

use crate::amount::{amount_text, product_units, Amount};
use crate::order::{fill_views, fills_wf, Fill, FillView, Order, OrderSide, OrderView};
use crate::orderbook::{level_total, text_pairs, Orderbook};
use crate::text::{decimal_digits, stream_for, stream_name, u64_to_string};
use crate::types::api::FillInfo;
use crate::types::db::{DbMessage, OrderUpdateData, TradeAddedData};
use crate::types::ws::{
    DepthUpdateData, DepthUpdateMessage, TradeAddedMessage, WsMessage, WsTradeAddedData,
};
use vstd::prelude::*;

verus! {

/// The word for a side.
pub open spec fn side_text(side: OrderSide) -> Seq<char> {
    match side {
        OrderSide::Buy => "buy"@,
        OrderSide::Sell => "sell"@,
    }
}

/// The text of price times quantity; that of zero where the product is no
/// amount.
pub open spec fn quote_text(price: nat, qty: nat) -> Seq<char> {
    match product_units(price, qty) {
        Some(value) => amount_text(value),
        None => amount_text(0),
    }
}

/// Whether `info` tells of `fill`: its price and quantity as text, and its
/// trade id.
pub open spec fn shows_fill(info: FillInfo, fill: FillView) -> bool {
    &&& info.price@ == amount_text(fill.price)
    &&& info.qty@ == amount_text(fill.qty)
    &&& info.trade_id == fill.trade_id
}

/// Whether `infos` tell of `fills`, one for one.
pub open spec fn show_fills(infos: Seq<FillInfo>, fills: Seq<FillView>) -> bool {
    infos.len() == fills.len() && forall|i: int|
        0 <= i < infos.len() ==> shows_fill(#[trigger] infos[i], fills[i])
}

/// Whether `message` records `fill` of an incoming order of side
/// `taker_side` in `market` at `timestamp`. The buyer is the maker where
/// the incoming order sells.
pub open spec fn records_trade(
    message: DbMessage,
    fill: FillView,
    taker_side: OrderSide,
    market: Seq<char>,
    timestamp: u64,
) -> bool {
    message matches DbMessage::TradeAdded { data } && {
        &&& data.id@ == decimal_digits(fill.trade_id)
        &&& data.is_buyer_maket == (taker_side == OrderSide::Sell)
        &&& data.price@ == amount_text(fill.price)
        &&& data.quantity@ == amount_text(fill.qty)
        &&& data.quote_quantity@ == quote_text(fill.price, fill.qty)
        &&& data.timestamp == timestamp
        &&& data.market@ == market
    }
}

/// Whether `messages` record `fills`, one for one.
pub open spec fn record_trades(
    messages: Seq<DbMessage>,
    fills: Seq<FillView>,
    taker_side: OrderSide,
    market: Seq<char>,
    timestamp: u64,
) -> bool {
    messages.len() == fills.len() && forall|i: int|
        0 <= i < messages.len() ==> records_trade(
            #[trigger] messages[i],
            fills[i],
            taker_side,
            market,
            timestamp,
        )
}

/// Whether `message` is the update of the incoming order: its id, what of
/// it traded, and its market, price, quantity and side.
pub open spec fn updates_taker(
    message: DbMessage,
    order: OrderView,
    executed: nat,
    market: Seq<char>,
) -> bool {
    message matches DbMessage::OrderUpdate { data } && {
        &&& data.order_id@ == order.order_id
        &&& data.executed_qty@ == executed
        &&& data.market matches Some(m) && m@ == market
        &&& data.price matches Some(p) && p@ == amount_text(order.price)
        &&& data.quantity matches Some(q) && q@ == amount_text(order.quantity)
        &&& data.side matches Some(s) && s@ == side_text(order.side)
    }
}

/// Whether `message` is the update of the resting order of `fill`: its id
/// and the quantity of the fill, and nothing else.
pub open spec fn updates_maker(message: DbMessage, fill: FillView) -> bool {
    message matches DbMessage::OrderUpdate { data } && {
        &&& data.order_id@ == fill.marker_order_id
        &&& data.executed_qty@ == fill.qty
        &&& data.market is None
        &&& data.price is None
        &&& data.quantity is None
        &&& data.side is None
    }
}

/// Whether `messages` update the incoming order and then the resting
/// order of each fill.
pub open spec fn update_orders(
    messages: Seq<DbMessage>,
    order: OrderView,
    executed: nat,
    fills: Seq<FillView>,
    market: Seq<char>,
) -> bool {
    &&& messages.len() == fills.len() + 1
    &&& updates_taker(messages[0], order, executed, market)
    &&& forall|i: int| 0 <= i < fills.len() ==> updates_maker(#[trigger] messages[i + 1], fills[i])
}

/// Whether `message` publishes `fill` on the trade stream of `market`.
pub open spec fn publishes_trade(
    message: WsMessage,
    fill: FillView,
    taker: Seq<char>,
    market: Seq<char>,
) -> bool {
    message matches WsMessage::TradeAdded(trade) && {
        &&& trade.stream@ == stream_name("trade"@, market)
        &&& trade.data.e@ == "trade"@
        &&& trade.data.t == fill.trade_id
        &&& trade.data.m == (fill.other_user_id == taker)
        &&& trade.data.p@ == amount_text(fill.price)
        &&& trade.data.q@ == amount_text(fill.qty)
        &&& trade.data.s@ == market
    }
}

/// Whether `messages` publish `fills`, one for one.
pub open spec fn publish_trades(
    messages: Seq<WsMessage>,
    fills: Seq<FillView>,
    taker: Seq<char>,
    market: Seq<char>,
) -> bool {
    messages.len() == fills.len() && forall|i: int|
        0 <= i < messages.len() ==> publishes_trade(#[trigger] messages[i], fills[i], taker, market)
}

/// Whether `message` publishes the levels `bids` and `asks` on the depth
/// stream of `market`.
pub open spec fn publishes_depth(
    message: WsMessage,
    market: Seq<char>,
    bids: Seq<(Seq<char>, Seq<char>)>,
    asks: Seq<(Seq<char>, Seq<char>)>,
) -> bool {
    message matches WsMessage::DepthUpdate(update) && {
        &&& update.stream@ == stream_name("depth"@, market)
        &&& update.data.e@ == "depth"@
        &&& update.data.b matches Some(b) && text_pairs(b@) == bids
        &&& update.data.a matches Some(a) && text_pairs(a@) == asks
    }
}

/// The distinct prices of the fills, each where it first occurs.
pub open spec fn touched_prices(fills: Seq<FillView>) -> Seq<nat>
    decreases fills.len(),
{
    if fills.len() == 0 {
        Seq::empty()
    } else {
        let before = touched_prices(fills.drop_last());
        if before.contains(fills.last().price) {
            before
        } else {
            before.push(fills.last().price)
        }
    }
}

/// The level of `price` among `orders`: the price and the quantity left to
/// trade at it, as text.
pub open spec fn level_text(orders: Seq<OrderView>, price: nat) -> (Seq<char>, Seq<char>) {
    (amount_text(price), amount_text(level_total(orders, price)))
}

/// The levels of the prices at which the fills traded, as they stand among
/// `orders`: nothing where a level was used up.
pub open spec fn touched_levels(orders: Seq<OrderView>, fills: Seq<FillView>) -> Seq<
    (Seq<char>, Seq<char>),
> {
    touched_prices(fills).map_values(|price: nat| level_text(orders, price))
}

/// The level at which an incoming order came to rest, or none where
/// nothing of it rests.
pub open spec fn resting_level(orders: Seq<OrderView>, price: nat, rests: bool) -> Seq<
    (Seq<char>, Seq<char>),
> {
    if rests {
        seq![level_text(orders, price)]
    } else {
        Seq::empty()
    }
}

/// What the fills are as told to the owner of the incoming order.
pub fn fill_infos(fills: &Vec<Fill>) -> (infos: Vec<FillInfo>)
    requires
        fills_wf(fills@),
    ensures
        show_fills(infos@, fill_views(fills@)),
{
    let mut infos: Vec<FillInfo> = Vec::new();
    let mut i: usize = 0;
    while i < fills.len()
        invariant
            i <= fills.len(),
            fills_wf(fills@),
            infos.len() == i,
            forall|j: int| 0 <= j < i ==> shows_fill(#[trigger] infos[j], fills[j]@),
        decreases fills.len() - i,
    {
        let fill = &fills[i];
        infos.push(
            FillInfo {
                price: fill.price.to_string(),
                qty: fill.qty.to_string(),
                trade_id: fill.trade_id,
            },
        );
        i = i + 1;
    }
    assert forall|j: int| 0 <= j < infos.len() implies shows_fill(
        #[trigger] infos[j],
        fill_views(fills@)[j],
    ) by {
        assert(fill_views(fills@)[j] == fills[j]@);
    }
    infos
}

/// The records of the trades of an incoming order of side `taker_side`.
pub fn create_db_trades(fills: &Vec<Fill>, taker_side: OrderSide, market: &str, timestamp: u64) -> (messages:
    Vec<DbMessage>)
    requires
        fills_wf(fills@),
    ensures
        record_trades(messages@, fill_views(fills@), taker_side, market@, timestamp),
{
    let mut messages: Vec<DbMessage> = Vec::new();
    let mut i: usize = 0;
    while i < fills.len()
        invariant
            i <= fills.len(),
            fills_wf(fills@),
            messages.len() == i,
            forall|j: int|
                0 <= j < i ==> records_trade(
                    #[trigger] messages[j],
                    fills[j]@,
                    taker_side,
                    market@,
                    timestamp,
                ),
        decreases fills.len() - i,
    {
        let fill = &fills[i];
        let quote_quantity = match fill.price.checked_mul(fill.qty) {
            Some(value) => value,
            None => Amount::zero(),
        };
        let is_buyer_maker = match taker_side {
            OrderSide::Buy => false,
            OrderSide::Sell => true,
        };
        messages.push(
            DbMessage::TradeAdded {
                data: TradeAddedData {
                    id: u64_to_string(fill.trade_id),
                    is_buyer_maket: is_buyer_maker,
                    price: fill.price.to_string(),
                    quantity: fill.qty.to_string(),
                    quote_quantity: quote_quantity.to_string(),
                    timestamp,
                    market: market.to_string(),
                },
            },
        );
        i = i + 1;
    }
    assert forall|j: int| 0 <= j < messages.len() implies records_trade(
        #[trigger] messages[j],
        fill_views(fills@)[j],
        taker_side,
        market@,
        timestamp,
    ) by {
        assert(fill_views(fills@)[j] == fills[j]@);
    }
    messages
}

/// The word for a side, as text.
fn side_word(side: OrderSide) -> (word: String)
    ensures
        word@ == side_text(side),
{
    match side {
        OrderSide::Buy => "buy".to_string(),
        OrderSide::Sell => "sell".to_string(),
    }
}

/// The updates of the orders that an incoming order touched: first its
/// own, then one for the resting order of each fill.
pub fn update_db_orders(order: &Order, executed_qty: Amount, fills: &Vec<Fill>, market: &str) -> (messages:
    Vec<DbMessage>)
    requires
        order.price.wf(),
        order.quantity.wf(),
    ensures
        update_orders(messages@, order@, executed_qty@, fill_views(fills@), market@),
{
    let mut messages: Vec<DbMessage> = Vec::new();
    messages.push(
        DbMessage::OrderUpdate {
            data: OrderUpdateData {
                order_id: order.order_id.clone(),
                executed_qty,
                market: Some(market.to_string()),
                price: Some(order.price.to_string()),
                quantity: Some(order.quantity.to_string()),
                side: Some(side_word(order.side)),
            },
        },
    );
    let mut i: usize = 0;
    while i < fills.len()
        invariant
            i <= fills.len(),
            messages.len() == i + 1,
            updates_taker(messages[0], order@, executed_qty@, market@),
            forall|j: int| 0 <= j < i ==> updates_maker(#[trigger] messages[j + 1], fills[j]@),
        decreases fills.len() - i,
    {
        let fill = &fills[i];
        let ghost before = messages@;
        messages.push(
            DbMessage::OrderUpdate {
                data: OrderUpdateData {
                    order_id: fill.marker_order_id.clone(),
                    executed_qty: fill.qty,
                    market: None,
                    price: None,
                    quantity: None,
                    side: None,
                },
            },
        );
        assert forall|j: int| 0 <= j < i + 1 implies updates_maker(
            #[trigger] messages[j + 1],
            fills[j]@,
        ) by {
            if j < i {
                assert(messages[j + 1] == before[j + 1]);
            }
        }
        i = i + 1;
    }
    assert forall|j: int| 0 <= j < fills.len() implies updates_maker(
        #[trigger] messages[j + 1],
        fill_views(fills@)[j],
    ) by {
        assert(fill_views(fills@)[j] == fills[j]@);
    }
    messages
}

/// The trades of an incoming order of `user_id` for the trade stream.
pub fn publish_ws_trades(fills: &Vec<Fill>, user_id: &str, market: &str) -> (messages: Vec<WsMessage>)
    requires
        fills_wf(fills@),
    ensures
        publish_trades(messages@, fill_views(fills@), user_id@, market@),
{
    let user = user_id.to_string();
    let mut messages: Vec<WsMessage> = Vec::new();
    let mut i: usize = 0;
    while i < fills.len()
        invariant
            i <= fills.len(),
            fills_wf(fills@),
            user@ == user_id@,
            messages.len() == i,
            forall|j: int|
                0 <= j < i ==> publishes_trade(#[trigger] messages[j], fills[j]@, user_id@, market@),
        decreases fills.len() - i,
    {
        let fill = &fills[i];
        messages.push(
            WsMessage::TradeAdded(
                TradeAddedMessage {
                    stream: stream_for("trade", market),
                    data: WsTradeAddedData {
                        e: "trade".to_string(),
                        t: fill.trade_id,
                        m: fill.other_user_id == user,
                        p: fill.price.to_string(),
                        q: fill.qty.to_string(),
                        s: market.to_string(),
                    },
                },
            ),
        );
        i = i + 1;
    }
    assert forall|j: int| 0 <= j < messages.len() implies publishes_trade(
        #[trigger] messages[j],
        fill_views(fills@)[j],
        user_id@,
        market@,
    ) by {
        assert(fill_views(fills@)[j] == fills[j]@);
    }
    messages
}

/// The depth message of `market` with the levels `bids` and `asks`.
pub fn depth_message(market: &str, bids: Vec<(String, String)>, asks: Vec<(String, String)>) -> (message:
    WsMessage)
    ensures
        publishes_depth(message, market@, text_pairs(bids@), text_pairs(asks@)),
{
    WsMessage::DepthUpdate(
        DepthUpdateMessage {
            stream: stream_for("depth", market),
            data: DepthUpdateData { b: Some(bids), a: Some(asks), e: "depth".to_string() },
        },
    )
}

/// The levels of side `side` of `book` at the prices at which the fills
/// traded.
#[verifier::rlimit(50)]
fn levels_touched(book: &Orderbook, side: OrderSide, fills: &Vec<Fill>) -> (levels: Vec<
    (String, String),
>)
    requires
        book@.wf(),
        fills_wf(fills@),
    ensures
        text_pairs(levels@) == touched_levels(book@.side(side), fill_views(fills@)),
{
    let ghost all = fill_views(fills@);
    let ghost orders = book@.side(side);
    let mut prices: Vec<Amount> = Vec::new();
    let mut levels: Vec<(String, String)> = Vec::new();
    let mut i: usize = 0;
    assert(all.take(0) =~= Seq::<FillView>::empty());
    assert(text_pairs(levels@) =~= touched_levels(orders, all.take(0)));
    assert(prices@.map_values(|p: Amount| p@) =~= touched_prices(all.take(0)));
    while i < fills.len()
        invariant
            i <= fills.len(),
            book@.wf(),
            fills_wf(fills@),
            all == fill_views(fills@),
            orders == book@.side(side),
            prices@.map_values(|p: Amount| p@) == touched_prices(all.take(i as int)),
            text_pairs(levels@) == touched_levels(orders, all.take(i as int)),
        decreases fills.len() - i,
    {
        let price = fills[i].price;
        let ghost seen = touched_prices(all.take(i as int));
        proof {
            assert(all.take(i + 1).drop_last() =~= all.take(i as int));
            assert(all.take(i + 1).last() == fills[i as int]@);
            assert(prices.len() == seen.len());
        }
        let mut j: usize = 0;
        while j < prices.len() && prices[j].units != price.units
            invariant
                j <= prices.len(),
                prices@.map_values(|p: Amount| p@) == seen,
                forall|m: int| 0 <= m < j ==> seen[m] != price@,
            decreases prices.len() - j,
        {
            assert(prices@.map_values(|p: Amount| p@)[j as int] == prices[j as int]@);
            j = j + 1;
        }
        if j < prices.len() {
            proof {
                assert(prices@.map_values(|p: Amount| p@)[j as int] == prices[j as int]@);
                assert(seen[j as int] == price@);
                assert(seen.contains(price@));
            }
        } else {
            let total = book.level_total_at(side, price);
            let ghost old_prices = prices@;
            let ghost old_levels = levels@;
            prices.push(price);
            levels.push((price.to_string(), total.to_string()));
            proof {
                assert(!seen.contains(price@));
                assert(prices@.map_values(|p: Amount| p@) =~= seen.push(price@));
                assert(text_pairs(levels@) =~= text_pairs(old_levels).push(
                    level_text(orders, price@),
                ));
                assert(touched_levels(orders, all.take(i + 1)) =~= touched_levels(
                    orders,
                    all.take(i as int),
                ).push(level_text(orders, price@)));
            }
        }
        i = i + 1;
    }
    assert(all.take(fills.len() as int) =~= all);
    levels
}

/// The depth message after an incoming order of side `side` and limit
/// `price` has traded in `book`: the levels of the opposite side at the
/// prices of its fills, and its own level where something of it rests.
pub fn publish_ws_depth_updates(
    book: &Orderbook,
    fills: &Vec<Fill>,
    price: Amount,
    side: OrderSide,
    rests: bool,
    market: &str,
) -> (message: WsMessage)
    requires
        book@.wf(),
        fills_wf(fills@),
        price.wf(),
    ensures
        publishes_depth(
            message,
            market@,
            match side {
                OrderSide::Buy => resting_level(book@.bids, price@, rests),
                OrderSide::Sell => touched_levels(book@.bids, fill_views(fills@)),
            },
            match side {
                OrderSide::Buy => touched_levels(book@.asks, fill_views(fills@)),
                OrderSide::Sell => resting_level(book@.asks, price@, rests),
            },
        ),
{
    let mut own: Vec<(String, String)> = Vec::new();
    assert(text_pairs(own@) =~= Seq::<(Seq<char>, Seq<char>)>::empty());
    if rests {
        let total = book.level_total_at(side, price);
        own.push((price.to_string(), total.to_string()));
        assert(text_pairs(own@) =~= seq![level_text(book@.side(side), price@)]);
    }
    match side {
        OrderSide::Buy => {
            let makers = levels_touched(book, OrderSide::Sell, fills);
            depth_message(market, own, makers)
        },
        OrderSide::Sell => {
            let makers = levels_touched(book, OrderSide::Buy, fills);
            depth_message(market, makers, own)
        },
    }
}

/// The depth message for one price of `book`: the level of each side at
/// it, with nothing where no order rests at it.
pub fn send_updated_depth_at(book: &Orderbook, price: Amount, market: &str) -> (message: WsMessage)
    requires
        book@.wf(),
        price.wf(),
    ensures
        publishes_depth(
            message,
            market@,
            seq![level_text(book@.bids, price@)],
            seq![level_text(book@.asks, price@)],
        ),
{
    let bid_total = book.level_total_at(OrderSide::Buy, price);
    let ask_total = book.level_total_at(OrderSide::Sell, price);
    let mut bids: Vec<(String, String)> = Vec::new();
    let mut asks: Vec<(String, String)> = Vec::new();
    bids.push((price.to_string(), bid_total.to_string()));
    asks.push((price.to_string(), ask_total.to_string()));
    assert(text_pairs(bids@) =~= seq![level_text(book@.bids, price@)]);
    assert(text_pairs(asks@) =~= seq![level_text(book@.asks, price@)]);
    depth_message(market, bids, asks)
}

} // verus!
