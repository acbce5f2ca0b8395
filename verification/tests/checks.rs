use std::str::FromStr;

use matching_engine::amount::{Amount, AMOUNT_SCALE, MAX_UNITS};
use matching_engine::engine::{parse_side, trades_two_assets, Engine, SEED_BALANCE};
use matching_engine::events::{
    create_db_trades, fill_infos, publish_ws_depth_updates, publish_ws_trades,
    send_updated_depth_at, update_db_orders,
};
use matching_engine::ledger::{AssetBalance, BalanceEntry, Ledger};
use matching_engine::order::{Fill, Order, OrderSide};
use matching_engine::orderbook::Orderbook;
use matching_engine::routes::{
    cancel_order, create_order, get_open_orders, CancelOrderRequest, CreateOrderRequest,
    GetOpenOrdersQuery,
};
use matching_engine::types::api::MessageFromApi;
use matching_engine::types::db::DbMessage;
use matching_engine::types::ws::WsMessage;
use rust_decimal::Decimal;

fn amount(text: &str) -> Amount {
    Amount::parse(text).unwrap()
}

fn decimal(amount: Amount) -> Decimal {
    Decimal::from_i128_with_scale(amount.units as i128, AMOUNT_SCALE)
}

fn order(id: &str, user: &str, side: OrderSide, quantity: &str, price: &str) -> Order {
    Order {
        price: amount(price),
        quantity: amount(quantity),
        order_id: id.to_string(),
        filled: Amount::zero(),
        side,
        user_id: user.to_string(),
    }
}

fn fill(price: &str, qty: &str, trade_id: u64, maker: &str, maker_order: &str) -> Fill {
    Fill {
        price: amount(price),
        qty: amount(qty),
        trade_id,
        other_user_id: maker.to_string(),
        marker_order_id: maker_order.to_string(),
    }
}

fn empty_book() -> Orderbook {
    Orderbook::new("TATA".to_string(), Vec::new(), Vec::new(), 0, Amount::zero())
}

fn pair(price: &str, quantity: &str) -> (String, String) {
    (price.to_string(), quantity.to_string())
}

#[test]
fn amounts_agree_with_decimals() {
    let samples = ["0", "1", "0.5", "100", "12.34567891", "0.00000001", "99999.9999", "250.125"];
    for a in samples {
        for b in samples {
            let (x, y) = (amount(a), amount(b));
            let (dx, dy) = (Decimal::from_str(a).unwrap(), Decimal::from_str(b).unwrap());
            assert_eq!(decimal(x), dx);
            assert_eq!(decimal(x.checked_add(y).unwrap()), dx + dy);
            match x.checked_sub(y) {
                Some(diff) => assert_eq!(decimal(diff), dx - dy),
                None => assert!(dx < dy),
            }
            if let Some(product) = x.checked_mul(y) {
                assert_eq!(decimal(product), dx * dy);
            }
            assert_eq!(x.units < y.units, dx < dy);
            assert_eq!(decimal(x.min(y)), dx.min(dy));
            assert_eq!(x.to_string(), dx.normalize().to_string());
        }
    }
}

#[test]
fn well_formed_book_passes_the_check() {
    let mut book = empty_book();
    assert!(book.is_well_formed());
    book.add_order(order("bid1", "A", OrderSide::Buy, "1", "90"));
    book.add_order(order("bid2", "A", OrderSide::Buy, "1", "91"));
    book.add_order(order("ask1", "B", OrderSide::Sell, "1", "110"));
    book.add_order(order("ask2", "B", OrderSide::Sell, "1", "105"));
    assert!(book.is_well_formed());
}

#[test]
fn malformed_books_fail_the_check() {
    let bids = vec![
        order("bid1", "A", OrderSide::Buy, "1", "90"),
        order("bid2", "A", OrderSide::Buy, "1", "91"),
    ];
    let unsorted = Orderbook::new("TATA".to_string(), bids, Vec::new(), 0, Amount::zero());
    assert!(!unsorted.is_well_formed());

    let twice = vec![
        order("bid1", "A", OrderSide::Buy, "1", "91"),
        order("bid1", "A", OrderSide::Buy, "1", "90"),
    ];
    assert!(!Orderbook::new("TATA".to_string(), twice, Vec::new(), 0, Amount::zero())
        .is_well_formed());

    let shared = Orderbook::new(
        "TATA".to_string(),
        vec![order("x", "A", OrderSide::Buy, "1", "90")],
        vec![order("x", "B", OrderSide::Sell, "1", "95")],
        0,
        Amount::zero(),
    );
    assert!(!shared.is_well_formed());

    let wrong_side = Orderbook::new(
        "TATA".to_string(),
        vec![order("x", "A", OrderSide::Sell, "1", "90")],
        Vec::new(),
        0,
        Amount::zero(),
    );
    assert!(!wrong_side.is_well_formed());

    let mut done = order("x", "A", OrderSide::Buy, "1", "90");
    done.filled = amount("1");
    assert!(!Orderbook::new("TATA".to_string(), vec![done], Vec::new(), 0, Amount::zero())
        .is_well_formed());

    let mut huge = order("x", "A", OrderSide::Sell, "1", "90");
    huge.quantity = Amount { units: MAX_UNITS };
    let mut more = order("y", "A", OrderSide::Sell, "1", "90");
    more.quantity = Amount { units: MAX_UNITS };
    assert!(!Orderbook::new("TATA".to_string(), Vec::new(), vec![huge, more], 0, Amount::zero())
        .is_well_formed());
}

#[test]
fn ledger_check_finds_doubles_and_overflow() {
    let mut ledger = Ledger::new();
    assert!(ledger.is_well_formed());
    ledger.on_ramp("A", amount("5")).unwrap();
    ledger.ensure("A", "TATA");
    assert!(ledger.is_well_formed());
    ledger.entries.push(BalanceEntry {
        user_id: "A".to_string(),
        asset: "INR".to_string(),
        balance: AssetBalance::new(Amount::zero(), Amount::zero()),
    });
    assert!(!ledger.is_well_formed());
    let mut big = Ledger::new();
    big.entries.push(BalanceEntry {
        user_id: "A".to_string(),
        asset: "INR".to_string(),
        balance: AssetBalance::new(Amount { units: MAX_UNITS }, Amount { units: 1 }),
    });
    assert!(!big.is_well_formed());
}

#[test]
fn engine_check_covers_books_and_ledger() {
    let mut engine = Engine::new();
    assert!(engine.is_well_formed());
    engine.add_orderbook(empty_book());
    engine.set_base_balances();
    assert!(engine.is_well_formed());
    engine.orderbooks[0].bids.push(order("x", "A", OrderSide::Sell, "1", "90"));
    assert!(!engine.is_well_formed());
}

#[test]
fn demo_users_start_with_ten_million() {
    let mut engine = Engine::new();
    engine.balances.on_ramp("1", amount("3")).unwrap();
    engine.balances.on_ramp("9", amount("3")).unwrap();
    engine.set_base_balances();
    assert_eq!(SEED_BALANCE, 10_000_000);
    for user in ["1", "2", "3"] {
        for asset in ["INR", "TATA"] {
            let balance = engine.balances.balance(user, asset);
            assert_eq!(balance.available, amount("10000000"));
            assert_eq!(balance.locked, Amount::zero());
        }
    }
    assert_eq!(engine.balances.balance("9", "INR").available, amount("3"));
    assert_eq!(engine.balances.entries.len(), 7);
    assert_eq!(engine.find_market("TATA_INR"), None);
    engine.add_orderbook(empty_book());
    assert_eq!(engine.find_market("TATA_INR"), Some(0));
    assert_eq!(engine.find_market("TATA"), None);
}

#[test]
fn markets_trade_one_asset_against_another() {
    assert!(trades_two_assets(&empty_book()));
    let same = Orderbook::new("INR".to_string(), Vec::new(), Vec::new(), 0, Amount::zero());
    assert_eq!(same.ticker(), "INR_INR");
    assert!(!trades_two_assets(&same));
}

#[test]
fn set_balance_replaces_or_adds() {
    let mut ledger = Ledger::new();
    ledger.set_balance("A", "INR", AssetBalance::new(amount("5"), amount("1")));
    ledger.set_balance("A", "INR", AssetBalance::new(amount("2"), amount("3")));
    assert_eq!(ledger.entries.len(), 1);
    assert_eq!(ledger.balance("A", "INR"), AssetBalance::new(amount("2"), amount("3")));
}

#[test]
fn book_cancel_gives_side_and_price() {
    let mut book = empty_book();
    book.add_order(order("bid1", "A", OrderSide::Buy, "1", "90"));
    book.add_order(order("ask1", "B", OrderSide::Sell, "1", "110"));
    assert_eq!(book.cancel(&"ask1".to_string()), Some((OrderSide::Sell, amount("110"))));
    assert_eq!(book.cancel(&"ask1".to_string()), None);
    assert_eq!(book.cancel(&"bid1".to_string()), Some((OrderSide::Buy, amount("90"))));
    assert!(book.bids.is_empty() && book.asks.is_empty());
}

#[test]
fn trade_ids_go_on_from_order_to_order() {
    let mut book = empty_book();
    book.add_order(order("ask1", "A", OrderSide::Sell, "1", "100"));
    book.add_order(order("ask2", "A", OrderSide::Sell, "1", "100"));
    book.add_order(order("ask3", "A", OrderSide::Sell, "1", "100"));
    let first = book.add_order(order("bid1", "B", OrderSide::Buy, "2", "100"));
    let second = book.add_order(order("bid2", "B", OrderSide::Buy, "1", "100"));
    let ids: Vec<u64> =
        first.fills.iter().chain(second.fills.iter()).map(|f| f.trade_id).collect();
    assert_eq!(ids, vec![0, 1, 2]);
    assert_eq!(book.last_trade_id, 3);
}

#[test]
fn requests_become_commands() {
    let request = CreateOrderRequest {
        market: "TATA_INR".to_string(),
        price: "100".to_string(),
        quantity: "2".to_string(),
        side: OrderSide::Sell,
        user_id: "7".to_string(),
    };
    match create_order(request, "c1".to_string()) {
        MessageFromApi::CreateOrder { data, client_id } => {
            assert_eq!(client_id, "c1");
            assert_eq!(data.market, "TATA_INR");
            assert_eq!(data.price, "100");
            assert_eq!(data.quantity, "2");
            assert_eq!(data.side, "sell");
            assert_eq!(data.user_id, "7");
            assert_eq!(parse_side(&data.side), OrderSide::Sell);
        }
        other => panic!("unexpected command {:?}", other),
    }
    let cancel = CancelOrderRequest { order_id: "o1".to_string(), market: "M".to_string() };
    match cancel_order(cancel, "c2".to_string()) {
        MessageFromApi::CancelOrder { data, client_id } => {
            assert_eq!(client_id, "c2");
            assert_eq!(data.order_id, "o1");
            assert_eq!(data.market, "M");
        }
        other => panic!("unexpected command {:?}", other),
    }
    let query = GetOpenOrdersQuery { user_id: "7".to_string(), market: "M".to_string() };
    match get_open_orders(query, "c3".to_string()) {
        MessageFromApi::GetOpenOrders { data, client_id } => {
            assert_eq!(client_id, "c3");
            assert_eq!(data.user_id, "7");
            assert_eq!(data.market, "M");
        }
        other => panic!("unexpected command {:?}", other),
    }
    assert_eq!(parse_side("buy"), OrderSide::Buy);
    assert_eq!(parse_side("anything"), OrderSide::Sell);
}

#[test]
fn fills_are_told_as_text() {
    let fills = vec![fill("100.5", "0.25", 41, "A", "a1")];
    let infos = fill_infos(&fills);
    assert_eq!(infos.len(), 1);
    assert_eq!(infos[0].price, "100.5");
    assert_eq!(infos[0].qty, "0.25");
    assert_eq!(infos[0].trade_id, 41);
}

#[test]
fn trades_are_recorded_with_their_value() {
    let fills = vec![
        fill("100.5", "0.25", 18446744073709551615, "A", "a1"),
        fill("0.00000001", "0.5", 10, "A", "a2"),
    ];
    let records = create_db_trades(&fills, OrderSide::Buy, "TATA_INR", 99);
    assert_eq!(records.len(), 2);
    match &records[0] {
        DbMessage::TradeAdded { data } => {
            assert_eq!(data.id, "18446744073709551615");
            assert!(!data.is_buyer_maket);
            assert_eq!(data.price, "100.5");
            assert_eq!(data.quantity, "0.25");
            assert_eq!(data.quote_quantity, "25.125");
            assert_eq!(data.timestamp, 99);
            assert_eq!(data.market, "TATA_INR");
        }
        other => panic!("unexpected record {:?}", other),
    }
    match &records[1] {
        DbMessage::TradeAdded { data } => {
            assert_eq!(data.id, "10");
            assert_eq!(data.quote_quantity, "0");
        }
        other => panic!("unexpected record {:?}", other),
    }
}

#[test]
fn order_updates_name_taker_then_makers() {
    let taker = order("t1", "B", OrderSide::Buy, "2", "105");
    let fills = vec![fill("100", "1", 0, "A", "a1"), fill("101", "0.5", 1, "C", "c1")];
    let updates = update_db_orders(&taker, amount("1.5"), &fills, "TATA_INR");
    assert_eq!(updates.len(), 3);
    let ids: Vec<(String, Amount, bool)> = updates
        .iter()
        .map(|u| match u {
            DbMessage::OrderUpdate { data } => {
                (data.order_id.clone(), data.executed_qty, data.market.is_some())
            }
            other => panic!("unexpected record {:?}", other),
        })
        .collect();
    assert_eq!(
        ids,
        vec![
            ("t1".to_string(), amount("1.5"), true),
            ("a1".to_string(), amount("1"), false),
            ("c1".to_string(), amount("0.5"), false),
        ]
    );
}

#[test]
fn trades_are_published_with_the_makers_user() {
    let fills = vec![fill("100", "1", 0, "A", "a1"), fill("101", "0.5", 1, "B", "bid1")];
    let messages = publish_ws_trades(&fills, "B", "TATA_INR");
    let own: Vec<bool> = messages
        .iter()
        .map(|m| match m {
            WsMessage::TradeAdded(trade) => trade.data.m,
            other => panic!("unexpected message {:?}", other),
        })
        .collect();
    assert_eq!(own, vec![false, true]);
}

#[test]
fn depth_messages_name_each_touched_price_once() {
    let mut book = empty_book();
    book.add_order(order("ask1", "A", OrderSide::Sell, "1", "100"));
    book.add_order(order("ask2", "A", OrderSide::Sell, "2", "100"));
    book.add_order(order("ask3", "A", OrderSide::Sell, "4", "101"));
    let incoming = order("bid1", "B", OrderSide::Buy, "4", "101");
    let result = book.add_order(incoming);
    assert_eq!(result.fills.len(), 3);
    let message =
        publish_ws_depth_updates(&book, &result.fills, amount("101"), OrderSide::Buy, false, "M");
    match message {
        WsMessage::DepthUpdate(update) => {
            assert_eq!(update.stream, "depth@M");
            assert_eq!(update.data.a, Some(vec![pair("100", "0"), pair("101", "3")]));
            assert_eq!(update.data.b, Some(Vec::new()));
        }
        other => panic!("unexpected message {:?}", other),
    }
    match send_updated_depth_at(&book, amount("101"), "M") {
        WsMessage::DepthUpdate(update) => {
            assert_eq!(update.data.a, Some(vec![pair("101", "3")]));
            assert_eq!(update.data.b, Some(vec![pair("101", "0")]));
        }
        other => panic!("unexpected message {:?}", other),
    }
}
