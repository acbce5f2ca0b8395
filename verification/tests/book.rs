use matching_engine::amount::Amount;
use matching_engine::order::{Order, OrderSide};
use matching_engine::orderbook::{Orderbook, BASE_CURRENCY};

fn amount(text: &str) -> Amount {
    Amount::parse(text).unwrap()
}

fn order(id: &str, user: &str, side: OrderSide, quantity: &str, price: &str) -> Order {
    Order {
        price: amount(price),
        quantity: amount(quantity),
        order_id: id.to_string(),
        filled: Amount::zero(),
        side,
        user_id: user.to_string(),
    }
}

fn empty_book() -> Orderbook {
    Orderbook::new("TATA".to_string(), Vec::new(), Vec::new(), 0, Amount::zero())
}

fn ids(orders: &Vec<Order>) -> Vec<String> {
    orders.iter().map(|o| o.order_id.clone()).collect()
}

#[test]
fn new_book_is_quoted_in_the_base_currency() {
    let book = empty_book();
    assert_eq!(BASE_CURRENCY, "INR");
    assert_eq!(book.quote_asset, "INR");
    assert_eq!(book.ticker(), "TATA_INR");
    assert_eq!(book.last_trade_id, 0);
    assert!(book.bids.is_empty() && book.asks.is_empty());
}

#[test]
fn order_without_match_rests_in_full() {
    let mut book = empty_book();
    let incoming = order("a1", "A", OrderSide::Buy, "5", "100");
    assert!(book.accepts(&incoming));
    let result = book.add_order(incoming);
    assert_eq!(result.executed_qty, Amount::zero());
    assert!(result.fills.is_empty());
    assert_eq!(ids(&book.bids), vec!["a1"]);
    assert_eq!(book.bids[0].filled, Amount::zero());
    assert_eq!(book.last_trade_id, 0);
}

#[test]
fn price_that_does_not_cross_does_not_trade() {
    let mut book = empty_book();
    book.add_order(order("ask1", "A", OrderSide::Sell, "1", "101"));
    let result = book.add_order(order("bid1", "B", OrderSide::Buy, "1", "100"));
    assert!(result.fills.is_empty());
    assert_eq!(ids(&book.asks), vec!["ask1"]);
    assert_eq!(ids(&book.bids), vec!["bid1"]);
}

#[test]
fn equal_prices_trade_in_order_of_arrival() {
    let mut book = empty_book();
    book.add_order(order("a", "A", OrderSide::Sell, "1", "100"));
    book.add_order(order("c", "C", OrderSide::Sell, "1", "100"));
    let result = book.add_order(order("b", "B", OrderSide::Buy, "2", "100"));
    assert_eq!(result.executed_qty, amount("2"));
    assert_eq!(result.fills.len(), 2);
    assert_eq!(result.fills[0].other_user_id, "A");
    assert_eq!(result.fills[0].marker_order_id, "a");
    assert_eq!(result.fills[0].qty, amount("1"));
    assert_eq!(result.fills[0].trade_id, 0);
    assert_eq!(result.fills[1].other_user_id, "C");
    assert_eq!(result.fills[1].qty, amount("1"));
    assert_eq!(result.fills[1].trade_id, 1);
    assert!(book.asks.is_empty() && book.bids.is_empty());
    assert_eq!(book.last_trade_id, 2);
}

#[test]
fn buy_sweeps_asks_from_the_lowest_price() {
    let mut book = empty_book();
    book.add_order(order("c", "C", OrderSide::Sell, "1", "101"));
    book.add_order(order("a", "A", OrderSide::Sell, "1", "100"));
    book.add_order(order("d", "D", OrderSide::Sell, "1", "106"));
    assert_eq!(ids(&book.asks), vec!["a", "c", "d"]);
    let result = book.add_order(order("b", "B", OrderSide::Buy, "2", "105"));
    assert_eq!(result.fills.len(), 2);
    assert_eq!(result.fills[0].price, amount("100"));
    assert_eq!(result.fills[0].other_user_id, "A");
    assert_eq!(result.fills[1].price, amount("101"));
    assert_eq!(result.fills[1].other_user_id, "C");
    assert_eq!(ids(&book.asks), vec!["d"]);
    assert!(book.bids.is_empty());
}

#[test]
fn sell_sweeps_bids_from_the_highest_price() {
    let mut book = empty_book();
    book.add_order(order("x", "X", OrderSide::Buy, "1", "99"));
    book.add_order(order("y", "Y", OrderSide::Buy, "1", "101"));
    book.add_order(order("z", "Z", OrderSide::Buy, "1", "100"));
    book.add_order(order("w", "W", OrderSide::Buy, "1", "101"));
    assert_eq!(ids(&book.bids), vec!["y", "w", "z", "x"]);
    let result = book.add_order(order("s", "S", OrderSide::Sell, "5", "100"));
    assert_eq!(result.executed_qty, amount("3"));
    let makers: Vec<String> = result.fills.iter().map(|f| f.marker_order_id.clone()).collect();
    assert_eq!(makers, vec!["y", "w", "z"]);
    let prices: Vec<Amount> = result.fills.iter().map(|f| f.price).collect();
    assert_eq!(prices, vec![amount("101"), amount("101"), amount("100")]);
    let trade_ids: Vec<u64> = result.fills.iter().map(|f| f.trade_id).collect();
    assert_eq!(trade_ids, vec![0, 1, 2]);
    assert_eq!(ids(&book.bids), vec!["x"]);
    assert_eq!(ids(&book.asks), vec!["s"]);
    assert_eq!(book.asks[0].filled, amount("3"));
    assert_eq!(book.asks[0].quantity, amount("5"));
}

#[test]
fn maker_filled_in_part_stays_at_the_head() {
    let mut book = empty_book();
    book.add_order(order("a", "A", OrderSide::Sell, "5", "100"));
    book.add_order(order("c", "C", OrderSide::Sell, "5", "100"));
    let result = book.add_order(order("b", "B", OrderSide::Buy, "2", "100"));
    assert_eq!(result.executed_qty, amount("2"));
    assert_eq!(result.fills.len(), 1);
    assert_eq!(ids(&book.asks), vec!["a", "c"]);
    assert_eq!(book.asks[0].filled, amount("2"));
    assert_eq!(book.asks[0].remaining(), amount("3"));
    assert_eq!(book.asks[1].filled, Amount::zero());
    let next = book.add_order(order("bid2", "B", OrderSide::Buy, "4", "100"));
    assert_eq!(next.fills.len(), 2);
    assert_eq!(next.fills[0].marker_order_id, "a");
    assert_eq!(next.fills[0].qty, amount("3"));
    assert_eq!(next.fills[0].trade_id, 1);
    assert_eq!(next.fills[1].marker_order_id, "c");
    assert_eq!(next.fills[1].qty, amount("1"));
    assert_eq!(next.fills[1].trade_id, 2);
}

#[test]
fn fills_add_up_to_the_executed_quantity() {
    let mut book = empty_book();
    book.add_order(order("a", "A", OrderSide::Sell, "1.5", "100"));
    book.add_order(order("c", "C", OrderSide::Sell, "2.25", "101"));
    let result = book.add_order(order("b", "B", OrderSide::Buy, "10", "105"));
    let sum: u128 = result.fills.iter().map(|f| f.qty.units).sum();
    assert_eq!(sum, result.executed_qty.units);
    assert_eq!(result.executed_qty, amount("3.75"));
    assert_eq!(book.bids[0].remaining(), amount("6.25"));
}

#[test]
fn book_refuses_what_it_cannot_take() {
    let mut book = empty_book();
    book.add_order(order("a", "A", OrderSide::Sell, "1", "100"));
    assert!(!book.accepts(&order("a", "B", OrderSide::Buy, "1", "1")));
    assert!(!book.accepts(&order("z", "B", OrderSide::Buy, "0", "1")));
    assert!(!book.accepts(&order("z", "B", OrderSide::Buy, "1", "0")));
    let mut started = order("z", "B", OrderSide::Buy, "2", "1");
    started.filled = amount("1");
    assert!(!book.accepts(&started));
    book.last_trade_id = u64::MAX;
    assert!(!book.accepts(&order("z", "B", OrderSide::Buy, "1", "1")));
    assert!(book.accepts(&order("z", "B", OrderSide::Sell, "1", "1")));
}

#[test]
fn depth_sums_what_is_left_at_each_price() {
    let mut book = empty_book();
    book.add_order(order("a", "A", OrderSide::Sell, "1", "100"));
    book.add_order(order("c", "C", OrderSide::Sell, "2.5", "100"));
    book.add_order(order("d", "D", OrderSide::Sell, "4", "101.5"));
    book.add_order(order("x", "X", OrderSide::Buy, "3", "99"));
    book.add_order(order("b", "B", OrderSide::Buy, "0.5", "100"));
    let (bids, asks) = book.get_depth();
    assert_eq!(bids, vec![("99".to_string(), "3".to_string())]);
    assert_eq!(
        asks,
        vec![("100".to_string(), "3".to_string()), ("101.5".to_string(), "4".to_string())]
    );
    assert_eq!(book.level_total_at(OrderSide::Sell, amount("100")), amount("3"));
    assert_eq!(book.level_total_at(OrderSide::Sell, amount("55")), Amount::zero());
    assert_eq!(book.level_total_at(OrderSide::Buy, amount("99")), amount("3"));
}

#[test]
fn depth_of_an_empty_book_is_empty() {
    let (bids, asks) = empty_book().get_depth();
    assert!(bids.is_empty() && asks.is_empty());
}

#[test]
fn open_orders_are_the_users_asks_then_bids() {
    let mut book = empty_book();
    book.add_order(order("bid1", "A", OrderSide::Buy, "1", "90"));
    book.add_order(order("ask1", "A", OrderSide::Sell, "1", "110"));
    book.add_order(order("ask2", "B", OrderSide::Sell, "1", "111"));
    book.add_order(order("bid2", "A", OrderSide::Buy, "1", "91"));
    assert_eq!(ids(&book.get_open_orders("A")), vec!["ask1", "bid2", "bid1"]);
    assert_eq!(ids(&book.get_open_orders("B")), vec!["ask2"]);
    assert!(book.get_open_orders("C").is_empty());
}

#[test]
fn cancel_takes_the_order_out_and_gives_its_price() {
    let mut book = empty_book();
    book.add_order(order("bid1", "A", OrderSide::Buy, "1", "90"));
    book.add_order(order("bid2", "A", OrderSide::Buy, "1", "91"));
    book.add_order(order("ask1", "B", OrderSide::Sell, "1", "110"));
    let found = book.find_order(&"bid1".to_string()).unwrap();
    assert_eq!(found.user_id, "A");
    assert_eq!(book.cancel_bid(&found), Some(amount("90")));
    assert_eq!(ids(&book.bids), vec!["bid2"]);
    assert_eq!(book.cancel_bid(&found), None);
    assert_eq!(book.cancel_ask(&found), None);
    let ask = book.find_order(&"ask1".to_string()).unwrap();
    assert_eq!(book.cancel_ask(&ask), Some(amount("110")));
    assert!(book.asks.is_empty());
    assert!(book.find_order(&"ask1".to_string()).is_none());
}

#[test]
fn snapshot_is_a_copy() {
    let mut book = empty_book();
    book.add_order(order("bid1", "A", OrderSide::Buy, "1", "90"));
    let copy = book.get_snapshot();
    book.add_order(order("bid2", "A", OrderSide::Buy, "1", "91"));
    assert_eq!(ids(&copy.bids), vec!["bid1"]);
    assert_eq!(copy.ticker(), "TATA_INR");
    assert_eq!(ids(&book.bids), vec!["bid2", "bid1"]);
}
