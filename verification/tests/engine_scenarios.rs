use matching_engine::amount::Amount;
use matching_engine::engine::{Engine, EngineError, OrderError, Outcome};
use matching_engine::ledger::{AssetBalance, BalanceEntry};
use matching_engine::order::OrderSide;
use matching_engine::orderbook::Orderbook;
use matching_engine::types::api::{
    CancelOrderDAta, CreateOrderData, GetDepthData, GetOpenOrdersData, MessageFromApi,
    MessageToApi, OnRampData,
};
use matching_engine::types::db::DbMessage;
use matching_engine::types::ws::WsMessage;

const MARKET: &str = "TATA_INR";

fn amount(text: &str) -> Amount {
    Amount::parse(text).unwrap()
}

fn seed(engine: &mut Engine, user: &str, asset: &str, available: &str) {
    engine.balances.entries.push(BalanceEntry {
        user_id: user.to_string(),
        asset: asset.to_string(),
        balance: AssetBalance::new(amount(available), Amount::zero()),
    });
}

fn engine() -> Engine {
    let mut engine = Engine::new();
    engine.add_orderbook(Orderbook::new(
        "TATA".to_string(),
        Vec::new(),
        Vec::new(),
        0,
        Amount::zero(),
    ));
    engine
}

fn balance(engine: &Engine, user: &str, asset: &str) -> (Amount, Amount) {
    let b = engine.balances.balance(user, asset);
    (b.available, b.locked)
}

fn create(user: &str, side: &str, quantity: &str, price: &str) -> MessageFromApi {
    MessageFromApi::CreateOrder {
        data: CreateOrderData {
            market: MARKET.to_string(),
            price: price.to_string(),
            quantity: quantity.to_string(),
            side: side.to_string(),
            user_id: user.to_string(),
        },
        client_id: format!("client-{}", user),
    }
}

fn cancel(order_id: &str, market: &str) -> MessageFromApi {
    MessageFromApi::CancelOrder {
        data: CancelOrderDAta { order_id: order_id.to_string(), market: market.to_string() },
        client_id: "canceller".to_string(),
    }
}

fn apply(engine: &mut Engine, message: MessageFromApi, id: &str) -> Outcome {
    engine.process_with_order_id(message, id.to_string(), 1_700_000_000_000).unwrap()
}

fn reply(outcome: &Outcome) -> &MessageToApi {
    &outcome.reply.as_ref().unwrap().message
}

fn pair(price: &str, quantity: &str) -> (String, String) {
    (price.to_string(), quantity.to_string())
}

fn total(engine: &Engine, asset: &str) -> u128 {
    engine
        .balances
        .entries
        .iter()
        .filter(|e| e.asset == asset)
        .map(|e| e.balance.available.units + e.balance.locked.units)
        .sum()
}

#[test]
fn rest_and_match() {
    let mut engine = engine();
    seed(&mut engine, "A", "INR", "10000");
    seed(&mut engine, "B", "TATA", "10");
    let first = apply(&mut engine, create("A", "buy", "5", "100"), "order-a");
    match reply(&first) {
        MessageToApi::OrderPlaced { payload } => {
            assert_eq!(payload.order_id, "order-a");
            assert_eq!(payload.executed_qty, Amount::zero());
            assert!(payload.fills.is_empty());
        }
        other => panic!("unexpected reply {:?}", other),
    }
    assert_eq!(first.reply.as_ref().unwrap().client_id, "client-A");
    let book = &engine.orderbooks[0];
    assert_eq!(book.bids.len(), 1);
    assert_eq!(book.bids[0].user_id, "A");
    assert_eq!(book.bids[0].quantity, amount("5"));
    assert_eq!(book.bids[0].price, amount("100"));
    assert!(book.asks.is_empty());
    assert_eq!(balance(&engine, "A", "INR"), (amount("9500"), amount("500")));

    let second = apply(&mut engine, create("B", "sell", "5", "100"), "order-b");
    match reply(&second) {
        MessageToApi::OrderPlaced { payload } => {
            assert_eq!(payload.order_id, "order-b");
            assert_eq!(payload.executed_qty, amount("5"));
            assert_eq!(payload.fills.len(), 1);
            assert_eq!(payload.fills[0].price, "100");
            assert_eq!(payload.fills[0].qty, "5");
            assert_eq!(payload.fills[0].trade_id, 0);
        }
        other => panic!("unexpected reply {:?}", other),
    }
    assert!(engine.orderbooks[0].bids.is_empty());
    assert!(engine.orderbooks[0].asks.is_empty());
    assert_eq!(balance(&engine, "A", "TATA"), (amount("5"), Amount::zero()));
    assert_eq!(balance(&engine, "A", "INR"), (amount("9500"), Amount::zero()));
    assert_eq!(balance(&engine, "B", "INR"), (amount("500"), Amount::zero()));
    assert_eq!(balance(&engine, "B", "TATA"), (amount("5"), Amount::zero()));
}

#[test]
fn rest_and_match_events() {
    let mut engine = engine();
    seed(&mut engine, "A", "INR", "10000");
    seed(&mut engine, "B", "TATA", "10");
    let first = apply(&mut engine, create("A", "buy", "5", "100"), "order-a");
    assert_eq!(first.db.len(), 1);
    match &first.db[0] {
        DbMessage::OrderUpdate { data } => {
            assert_eq!(data.order_id, "order-a");
            assert_eq!(data.executed_qty, Amount::zero());
            assert_eq!(data.market.as_deref(), Some(MARKET));
            assert_eq!(data.price.as_deref(), Some("100"));
            assert_eq!(data.quantity.as_deref(), Some("5"));
            assert_eq!(data.side.as_deref(), Some("buy"));
        }
        other => panic!("unexpected record {:?}", other),
    }
    assert_eq!(first.ws.len(), 1);
    match &first.ws[0] {
        WsMessage::DepthUpdate(update) => {
            assert_eq!(update.stream, "depth@TATA_INR");
            assert_eq!(update.data.e, "depth");
            assert_eq!(update.data.b, Some(vec![pair("100", "5")]));
            assert_eq!(update.data.a, Some(Vec::new()));
        }
        other => panic!("unexpected message {:?}", other),
    }

    let second = apply(&mut engine, create("B", "sell", "5", "100"), "order-b");
    assert_eq!(second.db.len(), 3);
    match &second.db[0] {
        DbMessage::TradeAdded { data } => {
            assert_eq!(data.id, "0");
            assert!(data.is_buyer_maket);
            assert_eq!(data.price, "100");
            assert_eq!(data.quantity, "5");
            assert_eq!(data.quote_quantity, "500");
            assert_eq!(data.timestamp, 1_700_000_000_000);
            assert_eq!(data.market, MARKET);
        }
        other => panic!("unexpected record {:?}", other),
    }
    match &second.db[1] {
        DbMessage::OrderUpdate { data } => {
            assert_eq!(data.order_id, "order-b");
            assert_eq!(data.executed_qty, amount("5"));
            assert_eq!(data.side.as_deref(), Some("sell"));
        }
        other => panic!("unexpected record {:?}", other),
    }
    match &second.db[2] {
        DbMessage::OrderUpdate { data } => {
            assert_eq!(data.order_id, "order-a");
            assert_eq!(data.executed_qty, amount("5"));
            assert!(data.market.is_none() && data.price.is_none());
            assert!(data.quantity.is_none() && data.side.is_none());
        }
        other => panic!("unexpected record {:?}", other),
    }
    assert_eq!(second.ws.len(), 2);
    match &second.ws[0] {
        WsMessage::DepthUpdate(update) => {
            assert_eq!(update.data.b, Some(vec![pair("100", "0")]));
            assert_eq!(update.data.a, Some(Vec::new()));
        }
        other => panic!("unexpected message {:?}", other),
    }
    match &second.ws[1] {
        WsMessage::TradeAdded(trade) => {
            assert_eq!(trade.stream, "trade@TATA_INR");
            assert_eq!(trade.data.e, "trade");
            assert_eq!(trade.data.t, 0);
            assert!(!trade.data.m);
            assert_eq!(trade.data.p, "100");
            assert_eq!(trade.data.q, "5");
            assert_eq!(trade.data.s, MARKET);
        }
        other => panic!("unexpected message {:?}", other),
    }
}

#[test]
fn partial_fill_leaves_the_rest_of_the_maker() {
    let mut engine = engine();
    seed(&mut engine, "A", "INR", "10000");
    seed(&mut engine, "B", "TATA", "3");
    apply(&mut engine, create("A", "buy", "5", "100"), "order-a");
    assert_eq!(balance(&engine, "A", "INR").1, amount("500"));
    let outcome = apply(&mut engine, create("B", "sell", "3", "100"), "order-b");
    match reply(&outcome) {
        MessageToApi::OrderPlaced { payload } => {
            assert_eq!(payload.executed_qty, amount("3"));
            assert_eq!(payload.fills.len(), 1);
        }
        other => panic!("unexpected reply {:?}", other),
    }
    let book = &engine.orderbooks[0];
    assert!(book.asks.is_empty());
    assert_eq!(book.bids.len(), 1);
    assert_eq!(book.bids[0].remaining(), amount("2"));
    assert_eq!(book.bids[0].price, amount("100"));
    assert_eq!(balance(&engine, "A", "INR"), (amount("9500"), amount("200")));
    assert_eq!(balance(&engine, "A", "TATA").0, amount("3"));
    assert_eq!(balance(&engine, "B", "INR").0, amount("300"));
    assert_eq!(balance(&engine, "B", "TATA"), (Amount::zero(), Amount::zero()));
    match &outcome.ws[0] {
        WsMessage::DepthUpdate(update) => {
            assert_eq!(update.data.b, Some(vec![pair("100", "2")]));
        }
        other => panic!("unexpected message {:?}", other),
    }
}

#[test]
fn price_time_priority() {
    let mut engine = engine();
    seed(&mut engine, "A", "TATA", "1");
    seed(&mut engine, "C", "TATA", "1");
    seed(&mut engine, "B", "INR", "10000");
    apply(&mut engine, create("A", "sell", "1", "100"), "order-a");
    apply(&mut engine, create("C", "sell", "1", "100"), "order-c");
    let placed = engine
        .create_order_with_id(MARKET, "100", "2", OrderSide::Buy, "B", "order-b".to_string(), 7)
        .unwrap();
    assert_eq!(placed.fills.len(), 2);
    assert_eq!(placed.fills[0].other_user_id, "A");
    assert_eq!(placed.fills[0].qty, amount("1"));
    assert_eq!(placed.fills[1].other_user_id, "C");
    assert_eq!(placed.fills[1].qty, amount("1"));
    assert_eq!(placed.executed_qty, amount("2"));
    assert_eq!(placed.order_id, "order-b");
}

#[test]
fn sweep_of_two_price_levels() {
    let mut engine = engine();
    seed(&mut engine, "A", "TATA", "1");
    seed(&mut engine, "C", "TATA", "1");
    seed(&mut engine, "B", "INR", "10000");
    apply(&mut engine, create("A", "sell", "1", "100"), "order-a");
    apply(&mut engine, create("C", "sell", "1", "101"), "order-c");
    let before = total(&engine, "INR");
    let placed = engine
        .create_order_with_id(MARKET, "105", "2", OrderSide::Buy, "B", "order-b".to_string(), 7)
        .unwrap();
    assert_eq!(placed.fills.len(), 2);
    assert_eq!(placed.fills[0].price, amount("100"));
    assert_eq!(placed.fills[0].qty, amount("1"));
    assert_eq!(placed.fills[0].other_user_id, "A");
    assert_eq!(placed.fills[1].price, amount("101"));
    assert_eq!(placed.fills[1].qty, amount("1"));
    assert_eq!(placed.fills[1].other_user_id, "C");
    assert_eq!(balance(&engine, "B", "INR").0, amount("9790"));
    assert_eq!(balance(&engine, "B", "INR").1, amount("9"));
    assert_eq!(balance(&engine, "B", "TATA").0, amount("2"));
    assert_eq!(balance(&engine, "A", "INR").0, amount("100"));
    assert_eq!(balance(&engine, "C", "INR").0, amount("101"));
    assert_eq!(total(&engine, "INR"), before);
    match &placed.ws[0] {
        WsMessage::DepthUpdate(update) => {
            assert_eq!(update.data.a, Some(vec![pair("100", "0"), pair("101", "0")]));
            assert_eq!(update.data.b, Some(Vec::new()));
        }
        other => panic!("unexpected message {:?}", other),
    }
}

#[test]
fn buyer_pays_the_makers_price_out_of_what_is_locked() {
    let mut engine = engine();
    seed(&mut engine, "A", "TATA", "1");
    seed(&mut engine, "B", "INR", "10000");
    apply(&mut engine, create("A", "sell", "1", "100"), "order-a");
    apply(&mut engine, create("B", "buy", "3", "105"), "order-b");
    assert_eq!(balance(&engine, "B", "INR"), (amount("9685"), amount("215")));
    assert_eq!(balance(&engine, "B", "TATA"), (amount("1"), Amount::zero()));
    assert_eq!(balance(&engine, "A", "INR"), (amount("100"), Amount::zero()));
    assert_eq!(engine.orderbooks[0].bids[0].remaining(), amount("2"));
    apply(&mut engine, cancel("order-b", MARKET), "unused");
    assert_eq!(balance(&engine, "B", "INR"), (amount("9895"), amount("5")));
    assert_eq!(total(&engine, "INR"), amount("10000").units);
}

#[test]
fn lock_before_the_sweep_is_price_times_quantity() {
    let mut engine = engine();
    seed(&mut engine, "B", "INR", "10000");
    apply(&mut engine, create("B", "buy", "2", "105"), "order-b");
    assert_eq!(balance(&engine, "B", "INR"), (amount("9790"), amount("210")));
}

#[test]
fn insufficient_funds() {
    let mut engine = engine();
    seed(&mut engine, "A", "INR", "100");
    let outcome = apply(&mut engine, create("A", "buy", "10", "20"), "order-a");
    match reply(&outcome) {
        MessageToApi::OrderCancelled { payload } => {
            assert_eq!(payload.order_id, "");
            assert_eq!(payload.executed_qty, Amount::zero());
            assert_eq!(payload.remaining_qty, Amount::zero());
        }
        other => panic!("unexpected reply {:?}", other),
    }
    assert!(outcome.db.is_empty() && outcome.ws.is_empty());
    assert_eq!(balance(&engine, "A", "INR"), (amount("100"), Amount::zero()));
    assert!(engine.orderbooks[0].bids.is_empty());
    let direct = engine.create_order_with_id(
        MARKET,
        "20",
        "10",
        OrderSide::Buy,
        "A",
        "order-a".to_string(),
        7,
    );
    assert_eq!(direct.err(), Some(OrderError::InsufficientFunds));
}

#[test]
fn cancel_unlocks() {
    let mut engine = engine();
    seed(&mut engine, "A", "INR", "10000");
    apply(&mut engine, create("A", "buy", "5", "100"), "order-a");
    assert_eq!(balance(&engine, "A", "INR"), (amount("9500"), amount("500")));
    let outcome = apply(&mut engine, cancel("order-a", MARKET), "unused");
    assert_eq!(balance(&engine, "A", "INR"), (amount("10000"), Amount::zero()));
    assert!(engine.orderbooks[0].bids.is_empty());
    match reply(&outcome) {
        MessageToApi::OrderCancelled { payload } => {
            assert_eq!(payload.order_id, "order-a");
        }
        other => panic!("unexpected reply {:?}", other),
    }
    assert_eq!(outcome.reply.as_ref().unwrap().client_id, "canceller");
    assert_eq!(outcome.ws.len(), 1);
    match &outcome.ws[0] {
        WsMessage::DepthUpdate(update) => {
            assert_eq!(update.stream, "depth@TATA_INR");
            assert_eq!(update.data.b, Some(vec![pair("100", "0")]));
            assert_eq!(update.data.a, Some(vec![pair("100", "0")]));
        }
        other => panic!("unexpected message {:?}", other),
    }
}

#[test]
fn cancel_of_an_ask_unlocks_base() {
    let mut engine = engine();
    seed(&mut engine, "B", "TATA", "10");
    apply(&mut engine, create("B", "sell", "4", "100"), "order-b");
    apply(&mut engine, create("B", "sell", "1", "100"), "order-b2");
    assert_eq!(balance(&engine, "B", "TATA"), (amount("5"), amount("5")));
    let outcome = apply(&mut engine, cancel("order-b", MARKET), "unused");
    assert_eq!(balance(&engine, "B", "TATA"), (amount("9"), amount("1")));
    match &outcome.ws[0] {
        WsMessage::DepthUpdate(update) => {
            assert_eq!(update.data.a, Some(vec![pair("100", "1")]));
            assert_eq!(update.data.b, Some(vec![pair("100", "0")]));
        }
        other => panic!("unexpected message {:?}", other),
    }
}

#[test]
fn cancel_of_an_absent_order_changes_nothing() {
    let mut engine = engine();
    seed(&mut engine, "A", "INR", "10000");
    apply(&mut engine, create("A", "buy", "5", "100"), "order-a");
    let outcome = apply(&mut engine, cancel("no-such-order", MARKET), "unused");
    match reply(&outcome) {
        MessageToApi::OrderCancelled { payload } => {
            assert_eq!(payload.order_id, "no-such-order");
            assert_eq!(payload.executed_qty, Amount::zero());
            assert_eq!(payload.remaining_qty, Amount::zero());
        }
        other => panic!("unexpected reply {:?}", other),
    }
    assert!(outcome.db.is_empty() && outcome.ws.is_empty());
    assert_eq!(engine.orderbooks[0].bids.len(), 1);
    assert_eq!(balance(&engine, "A", "INR"), (amount("9500"), amount("500")));
}

#[test]
fn cancel_in_an_unknown_market_names_no_order() {
    let mut engine = engine();
    let outcome = apply(&mut engine, cancel("order-a", "NOPE_INR"), "unused");
    match reply(&outcome) {
        MessageToApi::OrderCancelled { payload } => assert_eq!(payload.order_id, ""),
        other => panic!("unexpected reply {:?}", other),
    }
}

#[test]
fn create_then_cancel_restores_the_balances() {
    let mut engine = engine();
    seed(&mut engine, "A", "INR", "777.5");
    seed(&mut engine, "A", "TATA", "3");
    apply(&mut engine, create("A", "buy", "2.5", "10.2"), "order-a");
    assert_eq!(balance(&engine, "A", "INR"), (amount("752"), amount("25.5")));
    apply(&mut engine, cancel("order-a", MARKET), "unused");
    assert_eq!(balance(&engine, "A", "INR"), (amount("777.5"), Amount::zero()));
    apply(&mut engine, create("A", "sell", "1.25", "10.2"), "order-b");
    apply(&mut engine, cancel("order-b", MARKET), "unused");
    assert_eq!(balance(&engine, "A", "TATA"), (amount("3"), Amount::zero()));
}

#[test]
fn create_is_refused_for_an_unknown_market() {
    let mut engine = engine();
    seed(&mut engine, "A", "INR", "10000");
    let result = engine.create_order_with_id(
        "NOPE_INR",
        "100",
        "1",
        OrderSide::Buy,
        "A",
        "order-a".to_string(),
        7,
    );
    assert_eq!(result.err(), Some(OrderError::UnknownMarket));
    assert_eq!(balance(&engine, "A", "INR"), (amount("10000"), Amount::zero()));
}

#[test]
fn create_is_refused_for_malformed_numbers() {
    let mut engine = engine();
    seed(&mut engine, "A", "INR", "10000");
    for (price, quantity) in [("abc", "1"), ("1", "x"), ("0", "1"), ("1", "0"), ("-1", "1")] {
        let result = engine.create_order_with_id(
            MARKET,
            price,
            quantity,
            OrderSide::Buy,
            "A",
            "order-a".to_string(),
            7,
        );
        assert_eq!(result.err(), Some(OrderError::Malformed));
    }
    let outcome = apply(&mut engine, create("A", "buy", "1", "abc"), "order-a");
    match reply(&outcome) {
        MessageToApi::OrderCancelled { payload } => assert_eq!(payload.order_id, ""),
        other => panic!("unexpected reply {:?}", other),
    }
}

#[test]
fn create_is_refused_for_an_id_that_rests() {
    let mut engine = engine();
    seed(&mut engine, "A", "INR", "10000");
    apply(&mut engine, create("A", "buy", "1", "100"), "order-a");
    let result = engine.create_order_with_id(
        MARKET,
        "100",
        "1",
        OrderSide::Buy,
        "A",
        "order-a".to_string(),
        7,
    );
    assert_eq!(result.err(), Some(OrderError::Refused));
    assert_eq!(balance(&engine, "A", "INR"), (amount("9900"), amount("100")));
}

#[test]
fn create_is_refused_where_the_product_is_no_amount() {
    let mut engine = engine();
    seed(&mut engine, "A", "INR", "10000");
    let result = engine.create_order_with_id(
        MARKET,
        "700000000000000000000",
        "2",
        OrderSide::Buy,
        "A",
        "order-a".to_string(),
        7,
    );
    assert_eq!(result.err(), Some(OrderError::AmountOutOfRange));
    assert_eq!(balance(&engine, "A", "INR"), (amount("10000"), Amount::zero()));
}

#[test]
fn create_is_refused_off_the_order_step() {
    let mut engine = engine();
    seed(&mut engine, "A", "INR", "10000");
    for (price, quantity) in [("100.00001", "1"), ("100", "0.00001"), ("0.00000001", "0.5")] {
        let result = engine.create_order_with_id(
            MARKET,
            price,
            quantity,
            OrderSide::Buy,
            "A",
            "order-a".to_string(),
            7,
        );
        assert_eq!(result.err(), Some(OrderError::Malformed));
    }
    let fine = engine.create_order_with_id(
        MARKET,
        "100.0001",
        "0.0001",
        OrderSide::Buy,
        "A",
        "order-a".to_string(),
        7,
    );
    assert!(fine.is_ok());
    assert_eq!(balance(&engine, "A", "INR").1, amount("0.01000001"));
}

#[test]
fn engine_starts_with_one_market_and_the_demo_users() {
    let mut engine = Engine::start();
    assert!(engine.is_well_formed());
    assert_eq!(engine.orderbooks.len(), 1);
    assert_eq!(engine.orderbooks[0].ticker(), "TATA_INR");
    assert_eq!(engine.find_market(MARKET), Some(0));
    assert_eq!(engine.balances.entries.len(), 6);
    assert_eq!(balance(&engine, "1", "INR"), (amount("10000000"), Amount::zero()));
    assert_eq!(balance(&engine, "3", "TATA"), (amount("10000000"), Amount::zero()));
    assert_eq!(engine.balances.total_of("INR"), Some(amount("30000000")));
    assert_eq!(engine.balances.total_of("TATA"), Some(amount("30000000")));
    assert_eq!(engine.balances.total_of("GOLD"), Some(Amount::zero()));
    let steps = vec![
        (create("1", "buy", "5", "100"), "o1"),
        (create("2", "sell", "7.5", "99.5"), "o2"),
        (create("3", "sell", "1", "99.5"), "o3"),
        (create("1", "buy", "20", "101.25"), "o4"),
        (cancel("o4", MARKET), "x"),
        (create("2", "buy", "3", "120"), "o5"),
        (create("2", "sell", "3", "90"), "o6"),
    ];
    for (message, id) in steps {
        let outcome = engine.process_with_order_id(message, id.to_string(), 7);
        assert!(outcome.is_ok());
        assert!(engine.is_well_formed());
        assert_eq!(engine.balances.total_of("INR"), Some(amount("30000000")));
        assert_eq!(engine.balances.total_of("TATA"), Some(amount("30000000")));
    }
}

#[test]
fn user_may_trade_with_own_orders() {
    let mut engine = Engine::start();
    apply(&mut engine, create("1", "sell", "2", "100"), "o1");
    let outcome = apply(&mut engine, create("1", "buy", "2", "100"), "o2");
    match reply(&outcome) {
        MessageToApi::OrderPlaced { payload } => assert_eq!(payload.executed_qty, amount("2")),
        other => panic!("unexpected reply {:?}", other),
    }
    assert_eq!(balance(&engine, "1", "INR"), (amount("10000000"), Amount::zero()));
    assert_eq!(balance(&engine, "1", "TATA"), (amount("10000000"), Amount::zero()));
    match &outcome.ws[1] {
        WsMessage::TradeAdded(trade) => assert!(trade.data.m),
        other => panic!("unexpected message {:?}", other),
    }
}

#[test]
fn fills_that_cannot_be_settled_stop_the_engine() {
    let mut engine = engine();
    seed(&mut engine, "A", "INR", "10000");
    seed(&mut engine, "B", "TATA", "10");
    apply(&mut engine, create("A", "buy", "5", "100"), "order-a");
    engine.balances.entries[0].balance = AssetBalance::new(amount("10000"), Amount::zero());
    let result = engine.process_with_order_id(
        create("B", "sell", "5", "100"),
        "order-b".to_string(),
        7,
    );
    assert_eq!(result.err(), Some(EngineError::LedgerInvariantViolation));
    let direct = engine.process_with_order_id(cancel("order-a", MARKET), "unused".to_string(), 7);
    assert!(direct.is_ok());
}

#[test]
fn placing_reports_fills_that_cannot_be_settled() {
    let mut engine = engine();
    seed(&mut engine, "A", "INR", "10000");
    seed(&mut engine, "B", "TATA", "10");
    apply(&mut engine, create("A", "buy", "5", "100"), "order-a");
    engine.balances.entries[0].balance = AssetBalance::new(amount("10000"), Amount::zero());
    let result = engine.create_order_with_id(
        MARKET,
        "100",
        "5",
        OrderSide::Sell,
        "B",
        "order-b".to_string(),
        7,
    );
    assert_eq!(result.err(), Some(OrderError::LedgerInvariantViolation));
    assert_eq!(balance(&engine, "B", "TATA"), (amount("5"), amount("5")));
    assert!(engine.orderbooks[0].bids.is_empty());
}

#[test]
fn side_other_than_buy_sells() {
    let mut engine = engine();
    seed(&mut engine, "B", "TATA", "10");
    apply(&mut engine, create("B", "SELL!", "4", "100"), "order-b");
    assert_eq!(engine.orderbooks[0].asks.len(), 1);
    assert_eq!(engine.orderbooks[0].asks[0].side, OrderSide::Sell);
}

#[test]
fn depth_of_a_market() {
    let mut engine = engine();
    seed(&mut engine, "A", "INR", "10000");
    seed(&mut engine, "B", "TATA", "10");
    apply(&mut engine, create("A", "buy", "5", "99"), "a1");
    apply(&mut engine, create("A", "buy", "1.5", "99"), "a2");
    apply(&mut engine, create("B", "sell", "2", "101"), "bid1");
    let message = MessageFromApi::GetDepth {
        data: GetDepthData { market: MARKET.to_string() },
        client_id: "viewer".to_string(),
    };
    let outcome = apply(&mut engine, message, "unused");
    assert_eq!(outcome.reply.as_ref().unwrap().client_id, "viewer");
    match reply(&outcome) {
        MessageToApi::Depth { payload } => {
            assert_eq!(payload.bids, vec![pair("99", "6.5")]);
            assert_eq!(payload.asks, vec![pair("101", "2")]);
        }
        other => panic!("unexpected reply {:?}", other),
    }
}

#[test]
fn depth_of_an_unknown_market_is_empty() {
    let mut engine = engine();
    let message = MessageFromApi::GetDepth {
        data: GetDepthData { market: "NOPE_INR".to_string() },
        client_id: "viewer".to_string(),
    };
    let outcome = apply(&mut engine, message, "unused");
    match reply(&outcome) {
        MessageToApi::Depth { payload } => {
            assert!(payload.bids.is_empty() && payload.asks.is_empty());
        }
        other => panic!("unexpected reply {:?}", other),
    }
}

#[test]
fn open_orders_of_a_user() {
    let mut engine = engine();
    seed(&mut engine, "A", "INR", "10000");
    seed(&mut engine, "B", "TATA", "10");
    apply(&mut engine, create("A", "buy", "5", "99"), "a1");
    apply(&mut engine, create("B", "sell", "2", "101"), "bid1");
    let ask = |market: &str, user: &str| MessageFromApi::GetOpenOrders {
        data: GetOpenOrdersData { user_id: user.to_string(), market: market.to_string() },
        client_id: "viewer".to_string(),
    };
    let outcome = apply(&mut engine, ask(MARKET, "A"), "unused");
    match reply(&outcome) {
        MessageToApi::OpenOrders { payload } => {
            assert_eq!(payload.len(), 1);
            assert_eq!(payload[0].order_id, "a1");
        }
        other => panic!("unexpected reply {:?}", other),
    }
    let unknown = apply(&mut engine, ask("NOPE_INR", "A"), "unused");
    match reply(&unknown) {
        MessageToApi::OpenOrders { payload } => assert!(payload.is_empty()),
        other => panic!("unexpected reply {:?}", other),
    }
}

#[test]
fn deposit_credits_the_base_currency() {
    let mut engine = engine();
    let deposit = |amount: &str| MessageFromApi::OnRame {
        data: OnRampData {
            amount: amount.to_string(),
            user_id: "A".to_string(),
            txn_id: "t1".to_string(),
        },
        client_id: "bank".to_string(),
    };
    let outcome = apply(&mut engine, deposit("150.25"), "unused");
    assert!(outcome.reply.is_none() && outcome.db.is_empty() && outcome.ws.is_empty());
    assert_eq!(balance(&engine, "A", "INR"), (amount("150.25"), Amount::zero()));
    apply(&mut engine, deposit("not a number"), "unused");
    apply(&mut engine, deposit("-5"), "unused");
    assert_eq!(balance(&engine, "A", "INR"), (amount("150.25"), Amount::zero()));
}

#[test]
fn totals_stay_through_orders_and_cancellations() {
    let mut engine = engine();
    seed(&mut engine, "A", "INR", "10000");
    seed(&mut engine, "B", "TATA", "10");
    seed(&mut engine, "C", "TATA", "4");
    seed(&mut engine, "C", "INR", "50");
    let inr = total(&engine, "INR");
    let tata = total(&engine, "TATA");
    let steps = vec![
        (create("A", "buy", "5", "100"), "o1"),
        (create("B", "sell", "2", "99"), "o2"),
        (create("C", "sell", "4", "100"), "o3"),
        (create("C", "buy", "1", "50"), "o4"),
        (cancel("o3", MARKET), "x"),
        (create("A", "buy", "3", "101.5"), "o5"),
        (cancel("o1", MARKET), "x"),
        (cancel("o5", MARKET), "x"),
        (cancel("o4", MARKET), "x"),
    ];
    for (message, id) in steps {
        apply(&mut engine, message, id);
        assert_eq!(total(&engine, "INR"), inr);
        assert_eq!(total(&engine, "TATA"), tata);
    }
}

#[test]
fn process_gives_each_order_a_fresh_id() {
    let mut engine = engine();
    seed(&mut engine, "A", "INR", "10000");
    let outcome = engine.process(create("A", "buy", "1", "100"), 7).unwrap();
    let first = match reply(&outcome) {
        MessageToApi::OrderPlaced { payload } => payload.order_id.clone(),
        other => panic!("unexpected reply {:?}", other),
    };
    assert_eq!(first.chars().count(), 30);
    assert!(first.chars().all(|c| c.is_ascii_alphanumeric()));
    let placed = engine.create_order(MARKET, "100", "1", OrderSide::Buy, "A", 7).unwrap();
    assert_eq!(placed.order_id.chars().count(), 30);
    assert_ne!(placed.order_id, first);
    assert_eq!(engine.orderbooks[0].bids.len(), 2);
}
