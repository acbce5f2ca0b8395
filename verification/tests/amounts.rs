use matching_engine::amount::{Amount, AmountError, MAX_UNITS, UNITS_PER_ONE};
use matching_engine::ids::{get_random_client_id, random_order_id};
use matching_engine::text::{same_text, split_market, stream_for};

fn amount(text: &str) -> Amount {
    Amount::parse(text).unwrap()
}

#[test]
fn parse_whole_number() {
    assert_eq!(amount("100").units, 100 * UNITS_PER_ONE);
    assert_eq!(amount("100"), Amount::from_whole(100));
}

#[test]
fn parse_fraction() {
    assert_eq!(amount("0.5").units, 50_000_000);
    assert_eq!(amount("12.34567891").units, 1_234_567_891);
    assert_eq!(amount("0.00000001").units, 1);
}

#[test]
fn parse_keeps_value_whatever_the_scale() {
    assert_eq!(amount("1.50"), amount("1.5"));
    assert_eq!(amount("2.000000000000"), amount("2"));
}

#[test]
fn parse_rejects_text_that_is_no_number() {
    assert_eq!(Amount::parse("abc"), Err(AmountError::Malformed));
    assert_eq!(Amount::parse(""), Err(AmountError::Malformed));
}

#[test]
fn parse_rejects_negative_numbers() {
    assert_eq!(Amount::parse("-1"), Err(AmountError::Negative));
}

#[test]
fn parse_rejects_a_ninth_decimal_place() {
    assert_eq!(Amount::parse("0.000000001"), Err(AmountError::TooPrecise));
    assert_eq!(Amount::parse("1.123456789"), Err(AmountError::TooPrecise));
}

#[test]
fn parse_rejects_numbers_out_of_range() {
    assert_eq!(Amount::parse("79228162514264337593543950335"), Err(AmountError::Overflow));
    assert_eq!(Amount::parse("792281625142643375936"), Err(AmountError::Overflow));
    assert_eq!(amount("792281625142643375935.43950335").units, MAX_UNITS);
}

#[test]
fn from_decimal_parts_covers_every_error() {
    assert_eq!(Amount::from_decimal_parts(-5, 0), Err(AmountError::Negative));
    assert_eq!(Amount::from_decimal_parts(5, 29), Err(AmountError::ScaleOutOfRange));
    assert_eq!(Amount::from_decimal_parts(5, 9), Err(AmountError::TooPrecise));
    assert_eq!(Amount::from_decimal_parts(i128::MAX, 0), Err(AmountError::Overflow));
    assert_eq!(Amount::from_decimal_parts(i128::MAX - 27, 10), Err(AmountError::Overflow));
    assert_eq!(Amount::from_decimal_parts(5, 1), Ok(Amount { units: 50_000_000 }));
    assert_eq!(Amount::from_decimal_parts(500, 10), Ok(Amount { units: 5 }));
}

#[test]
fn from_units_checks_the_range() {
    assert_eq!(Amount::from_units(7), Some(Amount { units: 7 }));
    assert_eq!(Amount::from_units(MAX_UNITS), Some(Amount { units: MAX_UNITS }));
    assert_eq!(Amount::from_units(MAX_UNITS + 1), None);
    assert_eq!(Amount::zero().units(), 0);
    assert!(Amount::zero().is_zero());
    assert!(!amount("1").is_zero());
}

#[test]
fn text_has_no_trailing_zeros() {
    assert_eq!(amount("100").to_string(), "100");
    assert_eq!(amount("0.50").to_string(), "0.5");
    assert_eq!(amount("12.34567891").to_string(), "12.34567891");
    assert_eq!(Amount::zero().to_string(), "0");
    assert_eq!(amount("1200").to_string(), "1200");
    assert_eq!(amount("0.00000001").to_string(), "0.00000001");
}

#[test]
fn trimmed_parts_drop_trailing_zeros() {
    assert_eq!(amount("100").trimmed_parts(), (100, 0));
    assert_eq!(amount("0.5").trimmed_parts(), (5, 1));
    assert_eq!(Amount::zero().trimmed_parts(), (0, 0));
    assert_eq!(amount("0.00000001").trimmed_parts(), (1, 8));
}

#[test]
fn sums_and_differences_are_exact() {
    assert_eq!(amount("1.5").checked_add(amount("2.25")), Some(amount("3.75")));
    assert_eq!(amount("3.75").checked_sub(amount("2.25")), Some(amount("1.5")));
    assert_eq!(amount("1").checked_sub(amount("2")), None);
    assert_eq!(Amount { units: MAX_UNITS }.checked_add(Amount { units: 1 }), None);
}

#[test]
fn products_are_exact_or_refused() {
    assert_eq!(amount("100").checked_mul(amount("5")), Some(amount("500")));
    assert_eq!(amount("0.5").checked_mul(amount("0.5")), Some(amount("0.25")));
    assert_eq!(amount("0.0001").checked_mul(amount("0.0001")), Some(amount("0.00000001")));
    assert_eq!(amount("0.00000001").checked_mul(amount("0.5")), None);
    assert_eq!(Amount { units: MAX_UNITS }.checked_mul(Amount { units: MAX_UNITS }), None);
    assert_eq!(Amount { units: MAX_UNITS }.checked_mul(amount("2")), None);
    assert_eq!(Amount { units: MAX_UNITS }.checked_mul(amount("1")), Some(Amount { units: MAX_UNITS }));
}

#[test]
fn order_step_is_four_decimal_places() {
    assert!(amount("1.0001").is_on_step());
    assert!(amount("250").is_on_step());
    assert!(Amount::zero().is_on_step());
    assert!(!amount("1.00001").is_on_step());
    assert!(!amount("0.00000001").is_on_step());
}

#[test]
fn min_picks_the_smaller() {
    assert_eq!(amount("1").min(amount("2")), amount("1"));
    assert_eq!(amount("3").min(amount("2")), amount("2"));
}

#[test]
fn market_names_split_at_underscores() {
    assert_eq!(split_market("TATA_INR"), ("TATA".to_string(), "INR".to_string()));
    assert_eq!(split_market("TATA"), ("TATA".to_string(), "INR".to_string()));
    assert_eq!(split_market("A_B_C"), ("A".to_string(), "B".to_string()));
    assert_eq!(split_market("_X"), ("".to_string(), "X".to_string()));
    assert_eq!(split_market("X_"), ("X".to_string(), "".to_string()));
    assert_eq!(split_market(""), ("".to_string(), "INR".to_string()));
}

#[test]
fn stream_names_join_with_an_at_sign() {
    assert_eq!(stream_for("depth", "TATA_INR"), "depth@TATA_INR");
    assert_eq!(stream_for("trade", "X_Q"), "trade@X_Q");
}

#[test]
fn same_text_compares_characters() {
    assert!(same_text("buy", "buy"));
    assert!(!same_text("buy", "Buy"));
}

#[test]
fn random_ids_are_letters_and_digits() {
    let id = random_order_id();
    assert_eq!(id.chars().count(), 30);
    assert!(id.chars().all(|c| c.is_ascii_alphanumeric()));
    let client = get_random_client_id();
    assert_eq!(client.chars().count(), 26);
    assert!(client.chars().all(|c| c.is_ascii_alphanumeric()));
    assert_ne!(random_order_id(), random_order_id());
}
