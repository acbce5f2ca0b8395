use matching_engine::amount::{Amount, MAX_UNITS};
use matching_engine::ledger::{AssetBalance, BalanceEntry, Ledger, LedgerError};
use matching_engine::order::{Fill, Order, OrderSide};

fn amount(text: &str) -> Amount {
    Amount::parse(text).unwrap()
}

fn seed(ledger: &mut Ledger, user: &str, asset: &str, available: &str) {
    ledger.entries.push(BalanceEntry {
        user_id: user.to_string(),
        asset: asset.to_string(),
        balance: AssetBalance::new(amount(available), Amount::zero()),
    });
}

fn fill(price: &str, qty: &str, trade_id: u64, maker: &str, maker_order: &str) -> Fill {
    Fill {
        price: amount(price),
        qty: amount(qty),
        trade_id,
        other_user_id: maker.to_string(),
        marker_order_id: maker_order.to_string(),
    }
}

fn total(ledger: &Ledger, asset: &str) -> u128 {
    ledger
        .entries
        .iter()
        .filter(|e| e.asset == asset)
        .map(|e| e.balance.available.units + e.balance.locked.units)
        .sum()
}

#[test]
fn user_without_entry_holds_nothing() {
    let ledger = Ledger::new();
    let balance = ledger.balance("A", "INR");
    assert_eq!(balance.available, Amount::zero());
    assert_eq!(balance.locked, Amount::zero());
}

#[test]
fn ensure_makes_an_entry_once() {
    let mut ledger = Ledger::new();
    ledger.ensure("A", "INR");
    assert_eq!(ledger.entries.len(), 1);
    assert_eq!(ledger.entries[0].user_id, "A");
    assert_eq!(ledger.entries[0].asset, "INR");
    assert_eq!(ledger.balance("A", "INR"), AssetBalance::new(Amount::zero(), Amount::zero()));
    ledger.on_ramp("A", amount("5")).unwrap();
    ledger.ensure("A", "INR");
    assert_eq!(ledger.entries.len(), 1);
    assert_eq!(ledger.balance("A", "INR").available, amount("5"));
    ledger.ensure("A", "TATA");
    assert_eq!(ledger.entries.len(), 2);
}

#[test]
fn buy_locks_price_times_quantity_of_quote() {
    let mut ledger = Ledger::new();
    seed(&mut ledger, "A", "INR", "10000");
    let result =
        ledger.lock_for_order("A", OrderSide::Buy, "TATA", "INR", amount("100"), amount("5"));
    assert_eq!(result, Ok(()));
    assert_eq!(ledger.balance("A", "INR"), AssetBalance::new(amount("9500"), amount("500")));
}

#[test]
fn sell_locks_the_quantity_of_base() {
    let mut ledger = Ledger::new();
    seed(&mut ledger, "B", "TATA", "10");
    let result =
        ledger.lock_for_order("B", OrderSide::Sell, "TATA", "INR", amount("100"), amount("4"));
    assert_eq!(result, Ok(()));
    assert_eq!(ledger.balance("B", "TATA"), AssetBalance::new(amount("6"), amount("4")));
}

#[test]
fn lock_fails_without_funds_and_changes_nothing() {
    let mut ledger = Ledger::new();
    seed(&mut ledger, "A", "INR", "100");
    let result =
        ledger.lock_for_order("A", OrderSide::Buy, "TATA", "INR", amount("20"), amount("10"));
    assert_eq!(result, Err(LedgerError::InsufficientFunds));
    assert_eq!(ledger.balance("A", "INR"), AssetBalance::new(amount("100"), Amount::zero()));
    let missing =
        ledger.lock_for_order("Z", OrderSide::Sell, "TATA", "INR", amount("20"), amount("10"));
    assert_eq!(missing, Err(LedgerError::InsufficientFunds));
    assert_eq!(ledger.entries.len(), 1);
}

#[test]
fn lock_fails_where_the_product_is_no_amount() {
    let mut ledger = Ledger::new();
    seed(&mut ledger, "A", "INR", "100");
    let result = ledger.lock_for_order(
        "A",
        OrderSide::Buy,
        "TATA",
        "INR",
        amount("0.00000001"),
        amount("0.5"),
    );
    assert_eq!(result, Err(LedgerError::AmountOutOfRange));
    let huge = ledger.lock_for_order(
        "A",
        OrderSide::Buy,
        "TATA",
        "INR",
        Amount { units: MAX_UNITS },
        amount("2"),
    );
    assert_eq!(huge, Err(LedgerError::AmountOutOfRange));
    assert_eq!(ledger.balance("A", "INR").available, amount("100"));
}

#[test]
fn settle_moves_funds_between_buyer_and_seller() {
    let mut ledger = Ledger::new();
    seed(&mut ledger, "A", "INR", "10000");
    seed(&mut ledger, "B", "TATA", "10");
    ledger.lock_for_order("A", OrderSide::Buy, "TATA", "INR", amount("100"), amount("5")).unwrap();
    ledger.lock_for_order("B", OrderSide::Sell, "TATA", "INR", amount("100"), amount("5")).unwrap();
    let fills = vec![fill("100", "5", 0, "A", "a1")];
    let result = ledger.settle_fills("B", OrderSide::Sell, "TATA", "INR", &fills);
    assert_eq!(result, Ok(()));
    assert_eq!(ledger.balance("A", "INR"), AssetBalance::new(amount("9500"), Amount::zero()));
    assert_eq!(ledger.balance("A", "TATA"), AssetBalance::new(amount("5"), Amount::zero()));
    assert_eq!(ledger.balance("B", "INR"), AssetBalance::new(amount("500"), Amount::zero()));
    assert_eq!(ledger.balance("B", "TATA"), AssetBalance::new(amount("5"), Amount::zero()));
    assert_eq!(total(&ledger, "INR"), amount("10000").units);
    assert_eq!(total(&ledger, "TATA"), amount("10").units);
}

#[test]
fn settle_for_a_buyer_pays_the_makers_price() {
    let mut ledger = Ledger::new();
    seed(&mut ledger, "B", "INR", "10000");
    seed(&mut ledger, "A", "TATA", "1");
    seed(&mut ledger, "C", "TATA", "1");
    ledger.lock_for_order("A", OrderSide::Sell, "TATA", "INR", amount("100"), amount("1")).unwrap();
    ledger.lock_for_order("C", OrderSide::Sell, "TATA", "INR", amount("101"), amount("1")).unwrap();
    ledger.lock_for_order("B", OrderSide::Buy, "TATA", "INR", amount("105"), amount("2")).unwrap();
    assert_eq!(ledger.balance("B", "INR").locked, amount("210"));
    let fills = vec![fill("100", "1", 0, "A", "a"), fill("101", "1", 1, "C", "c")];
    assert_eq!(ledger.settle_fills("B", OrderSide::Buy, "TATA", "INR", &fills), Ok(()));
    assert_eq!(ledger.balance("B", "INR"), AssetBalance::new(amount("9790"), amount("9")));
    assert_eq!(ledger.balance("B", "TATA").available, amount("2"));
    assert_eq!(ledger.balance("A", "INR").available, amount("100"));
    assert_eq!(ledger.balance("C", "INR").available, amount("101"));
    assert_eq!(total(&ledger, "INR"), amount("10000").units);
    assert_eq!(total(&ledger, "TATA"), amount("2").units);
}

#[test]
fn settle_is_all_or_nothing() {
    let mut ledger = Ledger::new();
    seed(&mut ledger, "A", "INR", "10000");
    seed(&mut ledger, "B", "TATA", "10");
    ledger.lock_for_order("A", OrderSide::Buy, "TATA", "INR", amount("100"), amount("5")).unwrap();
    ledger.lock_for_order("B", OrderSide::Sell, "TATA", "INR", amount("100"), amount("1")).unwrap();
    let fills = vec![fill("100", "1", 0, "A", "a1"), fill("100", "1", 1, "A", "a1")];
    let result = ledger.settle_fills("B", OrderSide::Sell, "TATA", "INR", &fills);
    assert_eq!(result, Err(LedgerError::InvariantViolation));
    assert_eq!(ledger.balance("A", "INR"), AssetBalance::new(amount("9500"), amount("500")));
    assert_eq!(ledger.balance("B", "TATA"), AssetBalance::new(amount("9"), amount("1")));
    assert_eq!(ledger.balance("B", "INR").available, Amount::zero());
    assert_eq!(ledger.entries.len(), 2);
}

#[test]
fn settle_fails_where_the_debited_entry_is_missing() {
    let mut ledger = Ledger::new();
    seed(&mut ledger, "B", "TATA", "10");
    ledger.lock_for_order("B", OrderSide::Sell, "TATA", "INR", amount("100"), amount("1")).unwrap();
    let fills = vec![fill("100", "1", 0, "A", "a1")];
    let result = ledger.settle_fills("B", OrderSide::Sell, "TATA", "INR", &fills);
    assert_eq!(result, Err(LedgerError::InvariantViolation));
    assert_eq!(ledger.entries.len(), 1);
}

#[test]
fn unlock_gives_back_what_is_left_of_a_bid() {
    let mut ledger = Ledger::new();
    seed(&mut ledger, "A", "INR", "10000");
    ledger.lock_for_order("A", OrderSide::Buy, "TATA", "INR", amount("100"), amount("5")).unwrap();
    let order = Order {
        price: amount("100"),
        quantity: amount("5"),
        order_id: "a1".to_string(),
        filled: amount("3"),
        side: OrderSide::Buy,
        user_id: "A".to_string(),
    };
    assert_eq!(ledger.unlock_on_cancel(&order, "TATA", "INR"), Ok(()));
    assert_eq!(ledger.balance("A", "INR"), AssetBalance::new(amount("9700"), amount("300")));
}

#[test]
fn unlock_gives_back_what_is_left_of_an_ask() {
    let mut ledger = Ledger::new();
    seed(&mut ledger, "B", "TATA", "10");
    ledger.lock_for_order("B", OrderSide::Sell, "TATA", "INR", amount("100"), amount("4")).unwrap();
    let order = Order {
        price: amount("100"),
        quantity: amount("4"),
        order_id: "bid1".to_string(),
        filled: amount("1"),
        side: OrderSide::Sell,
        user_id: "B".to_string(),
    };
    assert_eq!(ledger.unlock_on_cancel(&order, "TATA", "INR"), Ok(()));
    assert_eq!(ledger.balance("B", "TATA"), AssetBalance::new(amount("9"), amount("1")));
}

#[test]
fn unlock_fails_where_less_is_locked() {
    let mut ledger = Ledger::new();
    seed(&mut ledger, "B", "TATA", "10");
    let order = Order {
        price: amount("100"),
        quantity: amount("4"),
        order_id: "bid1".to_string(),
        filled: Amount::zero(),
        side: OrderSide::Sell,
        user_id: "B".to_string(),
    };
    assert_eq!(ledger.unlock_on_cancel(&order, "TATA", "INR"), Err(LedgerError::InvariantViolation));
    assert_eq!(ledger.balance("B", "TATA"), AssetBalance::new(amount("10"), Amount::zero()));
}

#[test]
fn on_ramp_credits_the_base_currency() {
    let mut ledger = Ledger::new();
    assert_eq!(ledger.on_ramp("A", amount("250.5")), Ok(()));
    assert_eq!(ledger.balance("A", "INR"), AssetBalance::new(amount("250.5"), Amount::zero()));
    assert_eq!(ledger.on_ramp("A", amount("0.5")), Ok(()));
    assert_eq!(ledger.balance("A", "INR").available, amount("251"));
    assert_eq!(ledger.entries.len(), 1);
}

#[test]
fn on_ramp_refuses_what_would_leave_the_range() {
    let mut ledger = Ledger::new();
    ledger.on_ramp("A", Amount { units: MAX_UNITS }).unwrap();
    assert_eq!(ledger.on_ramp("A", Amount { units: 1 }), Err(LedgerError::AmountOutOfRange));
    assert_eq!(ledger.on_ramp("B", Amount { units: 1 }), Err(LedgerError::AmountOutOfRange));
    assert_eq!(ledger.balance("A", "INR").available, Amount { units: MAX_UNITS });
    assert_eq!(ledger.entries.len(), 1);
    assert_eq!(ledger.on_ramp("B", Amount::zero()), Ok(()));
}

#[test]
fn total_of_adds_up_an_asset_over_all_users() {
    let mut ledger = Ledger::new();
    seed(&mut ledger, "A", "INR", "10");
    seed(&mut ledger, "B", "INR", "2.5");
    seed(&mut ledger, "B", "TATA", "4");
    ledger.lock_for_order("A", OrderSide::Buy, "TATA", "INR", amount("2"), amount("3")).unwrap();
    assert_eq!(ledger.total_of("INR"), Some(amount("12.5")));
    assert_eq!(ledger.total_of("TATA"), Some(amount("4")));
    assert_eq!(ledger.total_of("GOLD"), Some(Amount::zero()));
    let mut full = Ledger::new();
    full.entries.push(BalanceEntry {
        user_id: "A".to_string(),
        asset: "INR".to_string(),
        balance: AssetBalance::new(Amount { units: MAX_UNITS }, Amount::zero()),
    });
    full.entries.push(BalanceEntry {
        user_id: "B".to_string(),
        asset: "INR".to_string(),
        balance: AssetBalance::new(Amount { units: 1 }, Amount::zero()),
    });
    assert_eq!(full.total_of("INR"), None);
}
