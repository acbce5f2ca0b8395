//! No overdraft: what rests in the books is backed by what is locked.
//!
//! A state is covered when every user has locked, of every asset, at least
//! what the user's resting orders hold of it. In a covered state no fill
//! and no cancellation can take more than is locked, so the engine never
//! meets the failure after which it must not go on; and every command
//! leaves a covered state covered.

use crate::amount::{
    amount_of_text, lemma_product_on_step, on_step, product_floor, product_units, MAX_UNITS,
};
use crate::engine::{
    applies, cannot_settle, create_plan, handles_cancel, handles_create, lemma_market_index,
    market_index, places, side_of_text, EngineError, EngineView, Outcome,
};
use crate::laws::{is_run, lemma_cancel_keeps_totals, lemma_place_keeps_totals, Step};
use crate::ledger::{
    asset_total, available_of, buyer_of, can_credit, can_deposit, credited, debited, entry_index,
    ledger_wf, lemma_credited, lemma_debited, lemma_deposit_credits, lemma_entry_index,
    lemma_entry_index_push, lemma_entry_within_total, lemma_reserved, lemma_settled,
    lemma_update_keeps_keys, lock_asset, locked_of, released, reserved, residual_lock, seller_of,
    settled, settled_fill, EntryView,
};
use crate::order::{filled_quantity, FillView, OrderSide, OrderView};
use crate::orderbook::{
    all_resting, crosses, fill_against, first_with_id, lemma_filled_quantity_prepend,
    lemma_first_with_id, lemma_rest_index, lesser, makers_after, matched_fills, rest_index, rested,
    ticker_of, BookView, BASE_CURRENCY,
};
use crate::text::{market_base, market_quote};
use crate::types::api::{CancelOrderDAta, CreateOrderData, MessageFromApi};
use vstd::prelude::*;

verus! {

/// The sum of the numbers.
pub open spec fn seq_sum(numbers: Seq<nat>) -> nat
    decreases numbers.len(),
{
    if numbers.len() == 0 {
        0
    } else {
        seq_sum(numbers.drop_last()) + numbers.last()
    }
}

pub proof fn lemma_sum_concat(a: Seq<nat>, b: Seq<nat>)
    ensures
        seq_sum(a + b) == seq_sum(a) + seq_sum(b),
    decreases b.len(),
{
    if b.len() == 0 {
        assert(a + b =~= a);
    } else {
        lemma_sum_concat(a, b.drop_last());
        assert((a + b).drop_last() =~= a + b.drop_last());
    }
}

pub proof fn lemma_sum_one(n: nat)
    ensures
        seq_sum(seq![n]) == n,
{
    reveal_with_fuel(seq_sum, 2);
    assert(seq![n].drop_last() =~= Seq::<nat>::empty());
}

pub proof fn lemma_sum_split(numbers: Seq<nat>, k: int)
    requires
        0 <= k <= numbers.len(),
    ensures
        seq_sum(numbers) == seq_sum(numbers.take(k)) + seq_sum(numbers.skip(k)),
{
    lemma_sum_concat(numbers.take(k), numbers.skip(k));
    assert(numbers.take(k) + numbers.skip(k) =~= numbers);
}

pub proof fn lemma_sum_update(numbers: Seq<nat>, k: int, n: nat)
    requires
        0 <= k < numbers.len(),
    ensures
        seq_sum(numbers.update(k, n)) + numbers[k] == seq_sum(numbers) + n,
{
    let after = numbers.update(k, n);
    lemma_sum_split(numbers, k);
    lemma_sum_split(numbers.skip(k), 1);
    lemma_sum_split(after, k);
    lemma_sum_split(after.skip(k), 1);
    assert(after.take(k) =~= numbers.take(k));
    assert(after.skip(k).skip(1) =~= numbers.skip(k).skip(1));
    assert(numbers.skip(k).take(1) =~= seq![numbers[k]]);
    assert(after.skip(k).take(1) =~= seq![n]);
    lemma_sum_one(numbers[k]);
    lemma_sum_one(n);
}

pub proof fn lemma_sum_remove(numbers: Seq<nat>, k: int)
    requires
        0 <= k < numbers.len(),
    ensures
        seq_sum(numbers.remove(k)) + numbers[k] == seq_sum(numbers),
{
    let after = numbers.remove(k);
    lemma_sum_split(numbers, k);
    lemma_sum_split(numbers.skip(k), 1);
    lemma_sum_split(after, k);
    assert(after.take(k) =~= numbers.take(k));
    assert(after.skip(k) =~= numbers.skip(k).skip(1));
    assert(numbers.skip(k).take(1) =~= seq![numbers[k]]);
    lemma_sum_one(numbers[k]);
}

pub proof fn lemma_sum_insert(numbers: Seq<nat>, k: int, n: nat)
    requires
        0 <= k <= numbers.len(),
    ensures
        seq_sum(numbers.insert(k, n)) == seq_sum(numbers) + n,
{
    let after = numbers.insert(k, n);
    assert(after.remove(k) =~= numbers);
    lemma_sum_remove(after, k);
}

pub proof fn lemma_sum_member(numbers: Seq<nat>, k: int)
    requires
        0 <= k < numbers.len(),
    ensures
        numbers[k] <= seq_sum(numbers),
{
    lemma_sum_remove(numbers, k);
}

/// What a user has locked is within range in a well-formed ledger.
pub proof fn lemma_locked_in_range(entries: Seq<EntryView>, user: Seq<char>, asset: Seq<char>)
    requires
        ledger_wf(entries),
    ensures
        locked_of(entries, user, asset) <= MAX_UNITS,
        available_of(entries, user, asset) + locked_of(entries, user, asset) <= asset_total(
            entries,
            asset,
        ),
{
    lemma_entry_index(entries, user, asset);
    let k = entry_index(entries, user, asset) as int;
    if k < entries.len() {
        assert(entries[k].total() <= MAX_UNITS);
        lemma_entry_within_total(entries, k);
    }
}

/// A debit changes what is locked for its user and asset only.
pub proof fn lemma_debited_locked(
    entries: Seq<EntryView>,
    user: Seq<char>,
    asset: Seq<char>,
    amount: nat,
    other_user: Seq<char>,
    other_asset: Seq<char>,
)
    requires
        ledger_wf(entries),
        debited(entries, user, asset, amount) is Some,
    ensures
        locked_of(debited(entries, user, asset, amount)->0, other_user, other_asset) == (if other_user
            == user && other_asset == asset {
            locked_of(entries, other_user, other_asset) - amount
        } else {
            locked_of(entries, other_user, other_asset) as int
        }),
{
    let k = entry_index(entries, user, asset) as int;
    let entry = EntryView { locked: (entries[k].locked - amount) as nat, ..entries[k] };
    lemma_entry_index(entries, user, asset);
    lemma_entry_index(entries, other_user, other_asset);
    lemma_update_keeps_keys(entries, k, entry);
    assert(entry_index(entries.update(k, entry), other_user, other_asset) == entry_index(
        entries,
        other_user,
        other_asset,
    ));
}

/// A credit changes nothing that is locked.
pub proof fn lemma_credited_locked(
    entries: Seq<EntryView>,
    user: Seq<char>,
    asset: Seq<char>,
    amount: nat,
    other_user: Seq<char>,
    other_asset: Seq<char>,
)
    requires
        ledger_wf(entries),
        can_credit(entries, user, asset, amount),
    ensures
        locked_of(credited(entries, user, asset, amount), other_user, other_asset) == locked_of(
            entries,
            other_user,
            other_asset,
        ),
{
    let k = entry_index(entries, user, asset) as int;
    lemma_entry_index(entries, user, asset);
    lemma_entry_index(entries, other_user, other_asset);
    if k < entries.len() {
        let entry = EntryView { available: entries[k].available + amount, ..entries[k] };
        lemma_update_keeps_keys(entries, k, entry);
        assert(entry_index(entries.update(k, entry), other_user, other_asset) == entry_index(
            entries,
            other_user,
            other_asset,
        ));
    } else {
        let entry = EntryView { user_id: user, asset, available: amount, locked: 0 };
        lemma_entry_index_push(entries, entry, other_user, other_asset);
    }
}

/// Locking changes what is locked for its user and asset only, and adds
/// the amount there; unlocking takes it from there.
pub proof fn lemma_reserved_locked(
    entries: Seq<EntryView>,
    user: Seq<char>,
    asset: Seq<char>,
    amount: nat,
    other_user: Seq<char>,
    other_asset: Seq<char>,
)
    requires
        ledger_wf(entries),
    ensures
        reserved(entries, user, asset, amount) matches Some(after) ==> locked_of(
            after,
            other_user,
            other_asset,
        ) == locked_of(entries, other_user, other_asset) + (if other_user == user && other_asset
            == asset {
            amount
        } else {
            0
        }),
        released(entries, user, asset, amount) matches Some(after) ==> locked_of(
            after,
            other_user,
            other_asset,
        ) == locked_of(entries, other_user, other_asset) - (if other_user == user && other_asset
            == asset {
            amount
        } else {
            0
        }),
{
    let k = entry_index(entries, user, asset) as int;
    lemma_entry_index(entries, user, asset);
    lemma_entry_index(entries, other_user, other_asset);
    if amount > 0 && k < entries.len() {
        if amount <= entries[k].available {
            let entry = EntryView {
                available: (entries[k].available - amount) as nat,
                locked: entries[k].locked + amount,
                ..entries[k]
            };
            lemma_update_keeps_keys(entries, k, entry);
            assert(entry_index(entries.update(k, entry), other_user, other_asset) == entry_index(
                entries,
                other_user,
                other_asset,
            ));
        }
        if amount <= entries[k].locked {
            let entry = EntryView {
                available: entries[k].available + amount,
                locked: (entries[k].locked - amount) as nat,
                ..entries[k]
            };
            lemma_update_keeps_keys(entries, k, entry);
            assert(entry_index(entries.update(k, entry), other_user, other_asset) == entry_index(
                entries,
                other_user,
                other_asset,
            ));
        }
    }
}

/// What is taken from what `user` has locked of `asset` when `buyer` and
/// `seller` trade `qty` at `price`: the payment from the buyer's quote, the
/// quantity from the seller's base.
pub open spec fn trade_debit(
    buyer: Seq<char>,
    seller: Seq<char>,
    base: Seq<char>,
    quote: Seq<char>,
    price: nat,
    qty: nat,
    user: Seq<char>,
    asset: Seq<char>,
) -> nat {
    (if buyer == user && asset == quote {
        product_floor(price, qty)
    } else {
        0
    }) + (if seller == user && asset == base {
        qty
    } else {
        0
    })
}

/// Every asset's total is within range.
pub open spec fn supply_in_range(entries: Seq<EntryView>) -> bool {
    forall|asset: Seq<char>| #[trigger] asset_total(entries, asset) <= MAX_UNITS
}

/// A fill whose buyer and seller have locked what it takes can be settled,
/// and takes exactly that from what is locked.
#[verifier::rlimit(50)]
pub proof fn lemma_fill_settles(
    entries: Seq<EntryView>,
    buyer: Seq<char>,
    seller: Seq<char>,
    base: Seq<char>,
    quote: Seq<char>,
    price: nat,
    qty: nat,
)
    requires
        ledger_wf(entries),
        supply_in_range(entries),
        base != quote,
        0 < price,
        0 < qty,
        on_step(price),
        on_step(qty),
        product_floor(price, qty) <= locked_of(entries, buyer, quote),
        qty <= locked_of(entries, seller, base),
    ensures
        settled_fill(entries, buyer, seller, base, quote, price, qty) is Some,
        forall|user: Seq<char>, asset: Seq<char>| #[trigger]
            locked_of(
                settled_fill(entries, buyer, seller, base, quote, price, qty)->0,
                user,
                asset,
            ) == locked_of(entries, user, asset) - trade_debit(
                buyer,
                seller,
                base,
                quote,
                price,
                qty,
                user,
                asset,
            ),
{
    let value = product_floor(price, qty);
    lemma_product_on_step(price, qty);
    lemma_locked_in_range(entries, buyer, quote);
    assert(product_units(price, qty) == Some(value));
    assert(value > 0) by {
        let x = price / 10_000;
        let y = qty / 10_000;
        assert(x >= 1 && y >= 1);
        assert(x * y >= 1) by (nonlinear_arith)
            requires
                x >= 1,
                y >= 1,
        ;
    }
    // The buyer pays.
    lemma_entry_index(entries, buyer, quote);
    assert(debited(entries, buyer, quote, value) is Some);
    let paid = debited(entries, buyer, quote, value)->0;
    lemma_debited(entries, buyer, quote, value);
    lemma_debited_locked(entries, buyer, quote, value, seller, base);
    // The seller delivers.
    lemma_entry_index(paid, seller, base);
    assert(debited(paid, seller, base, qty) is Some);
    let delivered = debited(paid, seller, base, qty)->0;
    lemma_debited(paid, seller, base, qty);
    // The buyer gets the quantity.
    assert(asset_total(delivered, base) + qty == asset_total(entries, base)) by {
        assert(asset_total(paid, base) == asset_total(entries, base));
    }
    lemma_locked_in_range(delivered, buyer, base);
    assert(can_credit(delivered, buyer, base, qty));
    let got = credited(delivered, buyer, base, qty);
    lemma_credited(delivered, buyer, base, qty);
    // The seller gets the payment.
    assert(asset_total(got, quote) + value == asset_total(entries, quote)) by {
        assert(asset_total(paid, quote) + value == asset_total(entries, quote));
        assert(asset_total(delivered, quote) == asset_total(paid, quote));
        assert(asset_total(got, quote) == asset_total(delivered, quote));
    }
    lemma_locked_in_range(got, seller, quote);
    assert(can_credit(got, seller, quote, value));
    let after = credited(got, seller, quote, value);
    assert(settled_fill(entries, buyer, seller, base, quote, price, qty) == Some(after));
    assert forall|user: Seq<char>, asset: Seq<char>| #[trigger]
        locked_of(after, user, asset) == locked_of(entries, user, asset) - trade_debit(
            buyer,
            seller,
            base,
            quote,
            price,
            qty,
            user,
            asset,
        ) by {
        lemma_debited_locked(entries, buyer, quote, value, user, asset);
        lemma_debited_locked(paid, seller, base, qty, user, asset);
        lemma_credited_locked(delivered, buyer, base, qty, user, asset);
        lemma_credited_locked(got, seller, quote, value, user, asset);
    }
}

/// What a fill takes from what `user` has locked of `asset`.
pub open spec fn fill_debit(
    fill: FillView,
    taker: Seq<char>,
    side: OrderSide,
    base: Seq<char>,
    quote: Seq<char>,
    user: Seq<char>,
    asset: Seq<char>,
) -> nat {
    trade_debit(
        buyer_of(taker, side, fill),
        seller_of(taker, side, fill),
        base,
        quote,
        fill.price,
        fill.qty,
        user,
        asset,
    )
}

/// What the fills take from what `user` has locked of `asset`.
pub open spec fn fill_debits(
    fills: Seq<FillView>,
    taker: Seq<char>,
    side: OrderSide,
    base: Seq<char>,
    quote: Seq<char>,
    user: Seq<char>,
    asset: Seq<char>,
) -> nat {
    seq_sum(fills.map_values(|f: FillView| fill_debit(f, taker, side, base, quote, user, asset)))
}

pub proof fn lemma_fill_debits_last(
    fills: Seq<FillView>,
    taker: Seq<char>,
    side: OrderSide,
    base: Seq<char>,
    quote: Seq<char>,
    user: Seq<char>,
    asset: Seq<char>,
)
    requires
        fills.len() > 0,
    ensures
        fill_debits(fills, taker, side, base, quote, user, asset) == fill_debits(
            fills.drop_last(),
            taker,
            side,
            base,
            quote,
            user,
            asset,
        ) + fill_debit(fills.last(), taker, side, base, quote, user, asset),
{
    let each = |f: FillView| fill_debit(f, taker, side, base, quote, user, asset);
    assert(fills.map_values(each).drop_last() =~= fills.drop_last().map_values(each));
}

/// Whether each fill is for a positive quantity at a positive price, both
/// on the order step.
pub open spec fn fills_stepped(fills: Seq<FillView>) -> bool {
    forall|i: int|
        0 <= i < fills.len() ==> 0 < (#[trigger] fills[i]).price && 0 < fills[i].qty && on_step(
            fills[i].price,
        ) && on_step(fills[i].qty)
}

/// Whether every user has locked, of every asset, what the fills take.
pub open spec fn fills_backed(
    entries: Seq<EntryView>,
    fills: Seq<FillView>,
    taker: Seq<char>,
    side: OrderSide,
    base: Seq<char>,
    quote: Seq<char>,
) -> bool {
    forall|user: Seq<char>, asset: Seq<char>| #[trigger]
        fill_debits(fills, taker, side, base, quote, user, asset) <= locked_of(entries, user, asset)
}

/// Fills that are backed can be settled, and take from what is locked
/// exactly what they are for.
#[verifier::rlimit(50)]
pub proof fn lemma_fills_settle(
    entries: Seq<EntryView>,
    taker: Seq<char>,
    side: OrderSide,
    base: Seq<char>,
    quote: Seq<char>,
    fills: Seq<FillView>,
)
    requires
        ledger_wf(entries),
        supply_in_range(entries),
        base != quote,
        fills_stepped(fills),
        fills_backed(entries, fills, taker, side, base, quote),
    ensures
        settled(entries, taker, side, base, quote, fills) is Some,
        forall|user: Seq<char>, asset: Seq<char>| #[trigger]
            locked_of(settled(entries, taker, side, base, quote, fills)->0, user, asset)
                == locked_of(entries, user, asset) - fill_debits(
                fills,
                taker,
                side,
                base,
                quote,
                user,
                asset,
            ),
    decreases fills.len(),
{
    if fills.len() == 0 {
        assert forall|user: Seq<char>, asset: Seq<char>|
            fill_debits(fills, taker, side, base, quote, user, asset) == 0 by {
            assert(fills.map_values(
                |f: FillView| fill_debit(f, taker, side, base, quote, user, asset),
            ) =~= Seq::<nat>::empty());
        }
    } else {
        let earlier = fills.drop_last();
        let last = fills.last();
        let buyer = buyer_of(taker, side, last);
        let seller = seller_of(taker, side, last);
        assert forall|i: int| 0 <= i < earlier.len() implies 0 < (#[trigger] earlier[i]).price && 0
            < earlier[i].qty && on_step(earlier[i].price) && on_step(earlier[i].qty) by {
            assert(earlier[i] == fills[i]);
        }
        assert forall|user: Seq<char>, asset: Seq<char>| #[trigger]
            fill_debits(earlier, taker, side, base, quote, user, asset) <= locked_of(
                entries,
                user,
                asset,
            ) by {
            lemma_fill_debits_last(fills, taker, side, base, quote, user, asset);
            assert(fill_debits(fills, taker, side, base, quote, user, asset) <= locked_of(
                entries,
                user,
                asset,
            ));
        }
        lemma_fills_settle(entries, taker, side, base, quote, earlier);
        let before = settled(entries, taker, side, base, quote, earlier)->0;
        lemma_settled(entries, taker, side, base, quote, earlier);
        assert(supply_in_range(before)) by {
            assert forall|a: Seq<char>| #[trigger] asset_total(before, a) <= MAX_UNITS by {
                assert(asset_total(before, a) == asset_total(entries, a));
            }
        }
        assert(fills[fills.len() - 1] == last);
        assert(product_floor(last.price, last.qty) <= locked_of(before, buyer, quote)) by {
            lemma_fill_debits_last(fills, taker, side, base, quote, buyer, quote);
            assert(fill_debits(fills, taker, side, base, quote, buyer, quote) <= locked_of(
                entries,
                buyer,
                quote,
            ));
            assert(locked_of(before, buyer, quote) == locked_of(entries, buyer, quote)
                - fill_debits(earlier, taker, side, base, quote, buyer, quote));
        }
        assert(last.qty <= locked_of(before, seller, base)) by {
            lemma_fill_debits_last(fills, taker, side, base, quote, seller, base);
            assert(fill_debits(fills, taker, side, base, quote, seller, base) <= locked_of(
                entries,
                seller,
                base,
            ));
            assert(locked_of(before, seller, base) == locked_of(entries, seller, base)
                - fill_debits(earlier, taker, side, base, quote, seller, base));
        }
        lemma_fill_settles(before, buyer, seller, base, quote, last.price, last.qty);
        let after = settled_fill(before, buyer, seller, base, quote, last.price, last.qty)->0;
        assert(settled(entries, taker, side, base, quote, fills) == Some(after));
        assert forall|user: Seq<char>, asset: Seq<char>| #[trigger]
            locked_of(after, user, asset) == locked_of(entries, user, asset) - fill_debits(
                fills,
                taker,
                side,
                base,
                quote,
                user,
                asset,
            ) by {
            lemma_fill_debits_last(fills, taker, side, base, quote, user, asset);
            assert(locked_of(before, user, asset) == locked_of(entries, user, asset) - fill_debits(
                earlier,
                taker,
                side,
                base,
                quote,
                user,
                asset,
            ));
        }
    }
}

/// What an order for `qty` at `price` holds locked: price times quantity
/// to buy, the quantity to sell.
pub open spec fn hold_amount(side: OrderSide, price: nat, qty: nat) -> nat {
    match side {
        OrderSide::Buy => product_floor(price, qty),
        OrderSide::Sell => qty,
    }
}

/// What a resting order holds locked for `user` of `asset`, in a market of
/// `base` and `quote`.
pub open spec fn order_hold(
    order: OrderView,
    base: Seq<char>,
    quote: Seq<char>,
    user: Seq<char>,
    asset: Seq<char>,
) -> nat {
    if order.user_id == user && lock_asset(order.side, base, quote) == asset {
        hold_amount(order.side, order.price, order.remaining())
    } else {
        0
    }
}

/// What each of the orders holds locked for `user` of `asset`.
pub open spec fn holds_each(
    orders: Seq<OrderView>,
    base: Seq<char>,
    quote: Seq<char>,
    user: Seq<char>,
    asset: Seq<char>,
) -> Seq<nat> {
    orders.map_values(|o: OrderView| order_hold(o, base, quote, user, asset))
}

/// What the orders hold locked for `user` of `asset`.
pub open spec fn orders_hold(
    orders: Seq<OrderView>,
    base: Seq<char>,
    quote: Seq<char>,
    user: Seq<char>,
    asset: Seq<char>,
) -> nat {
    seq_sum(holds_each(orders, base, quote, user, asset))
}

/// Whether price, quantity and filled quantity of every order are on the
/// order step.
pub open spec fn stepped(orders: Seq<OrderView>) -> bool {
    forall|i: int|
        0 <= i < orders.len() ==> on_step((#[trigger] orders[i]).price) && on_step(
            orders[i].quantity,
        ) && on_step(orders[i].filled)
}

/// What a fill takes from what its resting order's user has locked, seen
/// for `user` and `asset`; `maker_side` is the side of the resting order.
pub open spec fn maker_debit(
    fill: FillView,
    maker_side: OrderSide,
    base: Seq<char>,
    quote: Seq<char>,
    user: Seq<char>,
    asset: Seq<char>,
) -> nat {
    if fill.other_user_id == user && lock_asset(maker_side, base, quote) == asset {
        hold_amount(maker_side, fill.price, fill.qty)
    } else {
        0
    }
}

/// What each of the fills takes from what its resting order's user has
/// locked.
pub open spec fn debits_each(
    fills: Seq<FillView>,
    maker_side: OrderSide,
    base: Seq<char>,
    quote: Seq<char>,
    user: Seq<char>,
    asset: Seq<char>,
) -> Seq<nat> {
    fills.map_values(|f: FillView| maker_debit(f, maker_side, base, quote, user, asset))
}

/// What the fills take from what the resting orders' users have locked.
pub open spec fn maker_debits(
    fills: Seq<FillView>,
    maker_side: OrderSide,
    base: Seq<char>,
    quote: Seq<char>,
    user: Seq<char>,
    asset: Seq<char>,
) -> nat {
    seq_sum(debits_each(fills, maker_side, base, quote, user, asset))
}

/// What the fills take from what the incoming order has locked.
pub open spec fn taker_debits(fills: Seq<FillView>, side: OrderSide) -> nat {
    seq_sum(fills.map_values(|f: FillView| hold_amount(side, f.price, f.qty)))
}

/// Price times quantity adds up over quantities, on the order step.
pub proof fn lemma_hold_adds(side: OrderSide, price: nat, a: nat, b: nat)
    requires
        on_step(price),
        on_step(a),
        on_step(b),
    ensures
        hold_amount(side, price, a + b) == hold_amount(side, price, a) + hold_amount(
            side,
            price,
            b,
        ),
        on_step(a + b),
{
    lemma_product_on_step(price, a);
    lemma_product_on_step(price, b);
    lemma_product_on_step(price, a + b);
    let p = price / 10_000;
    let x = a / 10_000;
    let y = b / 10_000;
    assert((a + b) / 10_000 == x + y);
    assert(p * (x + y) == p * x + p * y) by (nonlinear_arith);
}

/// Price times quantity does not fall as the price rises, on the order
/// step.
pub proof fn lemma_hold_grows(low: nat, high: nat, qty: nat)
    requires
        low <= high,
        on_step(low),
        on_step(high),
        on_step(qty),
    ensures
        product_floor(low, qty) <= product_floor(high, qty),
{
    lemma_product_on_step(low, qty);
    lemma_product_on_step(high, qty);
    let a = low / 10_000;
    let b = high / 10_000;
    let q = qty / 10_000;
    assert(a <= b);
    assert(a * q <= b * q) by (nonlinear_arith)
        requires
            a <= b,
    ;
}

/// What matching does to the makers, place by place: each fill but the
/// last takes all that its maker had left; where the last takes less, its
/// maker stays at the head with that much more filled, and the makers
/// behind the fills stay as they were. On the order step the quantities of
/// the fills are on the step.
#[verifier::rlimit(50)]
pub proof fn lemma_matching_shape(
    makers: Seq<OrderView>,
    taker_side: OrderSide,
    limit: nat,
    want: nat,
    next_id: nat,
)
    requires
        all_resting(taker_side.opposite(), makers),
    ensures
        ({
            let fills = matched_fills(makers, taker_side, limit, want, next_id);
            let after = makers_after(makers, taker_side, limit, want);
            let n = fills.len() as int;
            &&& n <= makers.len()
            &&& filled_quantity(fills) <= want
            &&& forall|i: int|
                0 <= i < n ==> {
                    &&& (#[trigger] fills[i]).price == makers[i].price
                    &&& fills[i].other_user_id == makers[i].user_id
                    &&& 0 < fills[i].qty <= makers[i].remaining()
                    &&& crosses(taker_side, limit, makers[i].price)
                }
            &&& forall|i: int| 0 <= i < n - 1 ==> (#[trigger] fills[i]).qty == makers[i].remaining()
            &&& n > 0 && fills[n - 1].qty < makers[n - 1].remaining() ==> after == makers.skip(
                n - 1,
            ).update(0, makers[n - 1].fill(fills[n - 1].qty))
            &&& n == 0 || fills[n - 1].qty == makers[n - 1].remaining() ==> after == makers.skip(n)
            &&& on_step(want) && stepped(makers) ==> on_step(filled_quantity(fills)) && forall|
                i: int,
            | 0 <= i < n ==> on_step((#[trigger] fills[i]).qty)
        }),
    decreases makers.len(),
{
    let fills = matched_fills(makers, taker_side, limit, want, next_id);
    let after = makers_after(makers, taker_side, limit, want);
    let n = fills.len() as int;
    if makers.len() == 0 || want == 0 || !crosses(taker_side, limit, makers[0].price) {
        assert(makers.skip(0) =~= makers);
    } else {
        let take = lesser(want, makers[0].remaining());
        let rest = makers.skip(1);
        let first = fill_against(makers[0], take, next_id);
        let rest_fills = matched_fills(rest, taker_side, limit, (want - take) as nat, next_id + 1);
        assert(makers[0].resting());
        assert forall|i: int| 0 <= i < rest.len() implies (#[trigger] rest[i]).resting()
            && rest[i].side == taker_side.opposite() by {
            assert(rest[i] == makers[i + 1]);
        }
        lemma_matching_shape(rest, taker_side, limit, (want - take) as nat, next_id + 1);
        lemma_filled_quantity_prepend(first, rest_fills);
        assert forall|i: int| 0 <= i < n implies {
            &&& (#[trigger] fills[i]).price == makers[i].price
            &&& fills[i].other_user_id == makers[i].user_id
            &&& 0 < fills[i].qty <= makers[i].remaining()
            &&& crosses(taker_side, limit, makers[i].price)
        } by {
            if i > 0 {
                assert(fills[i] == rest_fills[i - 1]);
                assert(rest[i - 1] == makers[i]);
            }
        }
        if want < makers[0].remaining() {
            assert(rest_fills =~= Seq::<FillView>::empty());
            assert(makers.skip(0) =~= makers);
        } else {
            let m = rest_fills.len() as int;
            assert forall|i: int| 0 <= i < n - 1 implies (#[trigger] fills[i]).qty
                == makers[i].remaining() by {
                if i > 0 {
                    assert(fills[i] == rest_fills[i - 1]);
                    assert(rest[i - 1] == makers[i]);
                }
            }
            if m > 0 {
                assert(fills[n - 1] == rest_fills[m - 1]);
                assert(rest[m - 1] == makers[n - 1]);
                assert(rest.skip(m - 1) =~= makers.skip(n - 1));
            }
            assert(rest.skip(m) =~= makers.skip(n));
        }
        if on_step(want) && stepped(makers) {
            assert(on_step(makers[0].price) && on_step(makers[0].quantity) && on_step(
                makers[0].filled,
            ));
            assert(on_step(take));
            assert(on_step((want - take) as nat));
            assert forall|i: int| 0 <= i < rest.len() implies on_step((#[trigger] rest[i]).price)
                && on_step(rest[i].quantity) && on_step(rest[i].filled) by {
                assert(rest[i] == makers[i + 1]);
            }
            assert forall|i: int| 0 <= i < n implies on_step((#[trigger] fills[i]).qty) by {
                if i > 0 {
                    assert(fills[i] == rest_fills[i - 1]);
                }
            }
        }
    }
}

/// Makers that fills take in full hold what those fills take.
proof fn lemma_full_fills_hold(
    makers: Seq<OrderView>,
    fills: Seq<FillView>,
    side: OrderSide,
    m: int,
    base: Seq<char>,
    quote: Seq<char>,
    user: Seq<char>,
    asset: Seq<char>,
)
    requires
        0 <= m <= fills.len(),
        m <= makers.len(),
        forall|i: int|
            0 <= i < m ==> {
                &&& (#[trigger] makers[i]).side == side
                &&& makers[i].user_id == fills[i].other_user_id
                &&& makers[i].price == fills[i].price
                &&& makers[i].remaining() == fills[i].qty
            },
    ensures
        seq_sum(holds_each(makers, base, quote, user, asset).take(m)) == seq_sum(
            debits_each(fills, side, base, quote, user, asset).take(m),
        ),
{
    let held = holds_each(makers, base, quote, user, asset).take(m);
    let taken = debits_each(fills, side, base, quote, user, asset).take(m);
    assert forall|i: int| 0 <= i < m implies (#[trigger] held[i]) == taken[i] by {
        assert(makers[i].side == side);
    }
    assert(held =~= taken);
}

/// What the makers hold locked falls by exactly what the fills take from
/// their users.
#[verifier::rlimit(50)]
pub proof fn lemma_makers_hold(
    makers: Seq<OrderView>,
    taker_side: OrderSide,
    limit: nat,
    want: nat,
    next_id: nat,
    base: Seq<char>,
    quote: Seq<char>,
    user: Seq<char>,
    asset: Seq<char>,
)
    requires
        all_resting(taker_side.opposite(), makers),
        stepped(makers),
        on_step(want),
    ensures
        orders_hold(makers_after(makers, taker_side, limit, want), base, quote, user, asset)
            + maker_debits(
            matched_fills(makers, taker_side, limit, want, next_id),
            taker_side.opposite(),
            base,
            quote,
            user,
            asset,
        ) == orders_hold(makers, base, quote, user, asset),
{
    let side = taker_side.opposite();
    let fills = matched_fills(makers, taker_side, limit, want, next_id);
    let after = makers_after(makers, taker_side, limit, want);
    let n = fills.len() as int;
    let held = holds_each(makers, base, quote, user, asset);
    let taken = debits_each(fills, side, base, quote, user, asset);
    let left = holds_each(after, base, quote, user, asset);
    lemma_matching_shape(makers, taker_side, limit, want, next_id);
    if n == 0 || fills[n - 1].qty == makers[n - 1].remaining() {
        assert(after == makers.skip(n));
        assert forall|i: int| 0 <= i < n implies {
            &&& (#[trigger] makers[i]).side == side
            &&& makers[i].user_id == fills[i].other_user_id
            &&& makers[i].price == fills[i].price
            &&& makers[i].remaining() == fills[i].qty
        } by {
            assert(makers[i].resting() && makers[i].side == side);
            if i < n - 1 {
                assert(fills[i].qty == makers[i].remaining());
            }
        }
        lemma_full_fills_hold(makers, fills, side, n, base, quote, user, asset);
        lemma_sum_split(held, n);
        assert(held.skip(n) =~= left);
        assert(taken.take(n) =~= taken);
    } else {
        let last = makers[n - 1];
        let qty = fills[n - 1].qty;
        let kept = last.fill(qty);
        assert(last.resting() && last.side == side);
        assert forall|i: int| 0 <= i < n - 1 implies {
            &&& (#[trigger] makers[i]).side == side
            &&& makers[i].user_id == fills[i].other_user_id
            &&& makers[i].price == fills[i].price
            &&& makers[i].remaining() == fills[i].qty
        } by {
            assert(makers[i].resting() && makers[i].side == side);
            assert(fills[i].qty == makers[i].remaining());
        }
        lemma_full_fills_hold(makers, fills, side, n - 1, base, quote, user, asset);
        lemma_partial_fill_hold(last, fills[n - 1], base, quote, user, asset);
        assert(after == makers.skip(n - 1).update(0, kept));
        lemma_sum_split(held, n - 1);
        lemma_sum_split(held.skip(n - 1), 1);
        lemma_sum_split(taken, n - 1);
        lemma_sum_split(left, 1);
        assert(held.skip(n - 1).take(1) =~= seq![held[n - 1]]);
        assert(taken.skip(n - 1) =~= seq![taken[n - 1]]);
        assert(left.take(1) =~= seq![left[0]]);
        assert(left.skip(1) =~= held.skip(n - 1).skip(1));
        lemma_sum_one(held[n - 1]);
        lemma_sum_one(taken[n - 1]);
        lemma_sum_one(left[0]);
    }
}

/// A maker that a fill takes in part holds, before the fill, what it
/// holds after it and what the fill takes.
proof fn lemma_partial_fill_hold(
    maker: OrderView,
    fill: FillView,
    base: Seq<char>,
    quote: Seq<char>,
    user: Seq<char>,
    asset: Seq<char>,
)
    requires
        maker.resting(),
        on_step(maker.price),
        on_step(maker.quantity),
        on_step(maker.filled),
        on_step(fill.qty),
        fill.qty < maker.remaining(),
        fill.price == maker.price,
        fill.other_user_id == maker.user_id,
    ensures
        order_hold(maker, base, quote, user, asset) == order_hold(
            maker.fill(fill.qty),
            base,
            quote,
            user,
            asset,
        ) + maker_debit(fill, maker.side, base, quote, user, asset),
{
    let kept = maker.fill(fill.qty);
    assert(on_step(kept.remaining()));
    assert(maker.remaining() == kept.remaining() + fill.qty);
    lemma_hold_adds(maker.side, maker.price, kept.remaining(), fill.qty);
}

/// What the fills take from what the incoming order has locked, and what
/// is left of the order holds, are together no more than the order locked.
#[verifier::rlimit(50)]
pub proof fn lemma_taker_debits(fills: Seq<FillView>, side: OrderSide, limit: nat, quantity: nat)
    requires
        on_step(limit),
        on_step(quantity),
        filled_quantity(fills) <= quantity,
        forall|i: int|
            0 <= i < fills.len() ==> on_step((#[trigger] fills[i]).price) && on_step(
                fills[i].qty,
            ) && crosses(side, limit, fills[i].price),
    ensures
        on_step(filled_quantity(fills)),
        taker_debits(fills, side) <= hold_amount(side, limit, filled_quantity(fills)),
        taker_debits(fills, side) + hold_amount(
            side,
            limit,
            (quantity - filled_quantity(fills)) as nat,
        ) <= hold_amount(side, limit, quantity),
    decreases fills.len(),
{
    let each = |f: FillView| hold_amount(side, f.price, f.qty);
    let executed = filled_quantity(fills);
    if fills.len() == 0 {
        assert(fills.map_values(each) =~= Seq::<nat>::empty());
        lemma_product_on_step(limit, 0);
        assert(product_floor(limit, 0) == 0) by {
            assert(limit * 0 == 0) by (nonlinear_arith);
        }
    } else {
        let earlier = fills.drop_last();
        let last = fills.last();
        assert(fills[fills.len() - 1] == last);
        assert forall|i: int| 0 <= i < earlier.len() implies on_step((#[trigger] earlier[i]).price)
            && on_step(earlier[i].qty) && crosses(side, limit, earlier[i].price) by {
            assert(earlier[i] == fills[i]);
        }
        lemma_taker_debits(earlier, side, limit, quantity);
        assert(fills.map_values(each).drop_last() =~= earlier.map_values(each));
        lemma_hold_adds(side, limit, filled_quantity(earlier), last.qty);
        match side {
            OrderSide::Buy => {
                lemma_hold_grows(last.price, limit, last.qty);
            },
            OrderSide::Sell => {},
        }
    }
    lemma_hold_adds(side, limit, executed, (quantity - executed) as nat);
}

/// What the fills take from what is locked is what they take from the
/// incoming order's user and from the resting orders' users.
pub proof fn lemma_fill_debits_split(
    fills: Seq<FillView>,
    taker: Seq<char>,
    side: OrderSide,
    base: Seq<char>,
    quote: Seq<char>,
    user: Seq<char>,
    asset: Seq<char>,
)
    ensures
        fill_debits(fills, taker, side, base, quote, user, asset) == (if taker == user
            && lock_asset(side, base, quote) == asset {
            taker_debits(fills, side)
        } else {
            0
        }) + maker_debits(fills, side.opposite(), base, quote, user, asset),
    decreases fills.len(),
{
    let all = |f: FillView| fill_debit(f, taker, side, base, quote, user, asset);
    let own = |f: FillView| hold_amount(side, f.price, f.qty);
    let other = |f: FillView| maker_debit(f, side.opposite(), base, quote, user, asset);
    if fills.len() == 0 {
        assert(fills.map_values(all) =~= Seq::<nat>::empty());
        assert(fills.map_values(own) =~= Seq::<nat>::empty());
        assert(fills.map_values(other) =~= Seq::<nat>::empty());
    } else {
        lemma_fill_debits_split(fills.drop_last(), taker, side, base, quote, user, asset);
        assert(fills.map_values(all).drop_last() =~= fills.drop_last().map_values(all));
        assert(fills.map_values(own).drop_last() =~= fills.drop_last().map_values(own));
        assert(fills.map_values(other).drop_last() =~= fills.drop_last().map_values(other));
    }
}

/// The base asset of the market that a book trades, as its name gives it.
pub open spec fn book_base(book: BookView) -> Seq<char> {
    market_base(ticker_of(book.base_asset, book.quote_asset))
}

/// The quote asset of the market that a book trades, as its name gives it.
pub open spec fn book_quote(book: BookView) -> Seq<char> {
    market_quote(ticker_of(book.base_asset, book.quote_asset))
}

/// What the resting orders of a book hold locked for `user` of `asset`.
pub open spec fn book_hold(book: BookView, user: Seq<char>, asset: Seq<char>) -> nat {
    orders_hold(book.bids, book_base(book), book_quote(book), user, asset) + orders_hold(
        book.asks,
        book_base(book),
        book_quote(book),
        user,
        asset,
    )
}

/// What the resting orders of all books hold locked for `user` of `asset`.
pub open spec fn books_hold(books: Seq<BookView>, user: Seq<char>, asset: Seq<char>) -> nat {
    seq_sum(books.map_values(|b: BookView| book_hold(b, user, asset)))
}

/// Whether a book's orders are on the order step and its market trades one
/// asset against another.
pub open spec fn book_stepped(book: BookView) -> bool {
    &&& stepped(book.bids)
    &&& stepped(book.asks)
    &&& book_base(book) != book_quote(book)
}

/// Whether the state is covered: it is well-formed, every asset's total is
/// within range, the books are on the order step, and every user has
/// locked, of every asset, at least what the user's resting orders hold.
pub open spec fn covered(engine: EngineView) -> bool {
    &&& engine.wf()
    &&& supply_in_range(engine.ledger)
    &&& forall|i: int| 0 <= i < engine.books.len() ==> book_stepped(#[trigger] engine.books[i])
    &&& forall|user: Seq<char>, asset: Seq<char>| #[trigger]
        books_hold(engine.books, user, asset) <= locked_of(engine.ledger, user, asset)
}

/// An order that comes to rest adds what it holds to what its side holds.
pub proof fn lemma_hold_inserted(
    orders: Seq<OrderView>,
    k: int,
    order: OrderView,
    base: Seq<char>,
    quote: Seq<char>,
    user: Seq<char>,
    asset: Seq<char>,
)
    requires
        0 <= k <= orders.len(),
    ensures
        orders_hold(orders.insert(k, order), base, quote, user, asset) == orders_hold(
            orders,
            base,
            quote,
            user,
            asset,
        ) + order_hold(order, base, quote, user, asset),
{
    let hold = |o: OrderView| order_hold(o, base, quote, user, asset);
    assert(orders.insert(k, order).map_values(hold) =~= orders.map_values(hold).insert(
        k,
        hold(order),
    ));
    lemma_sum_insert(orders.map_values(hold), k, hold(order));
}

/// An order that leaves takes what it holds from what its side holds.
pub proof fn lemma_hold_removed(
    orders: Seq<OrderView>,
    k: int,
    base: Seq<char>,
    quote: Seq<char>,
    user: Seq<char>,
    asset: Seq<char>,
)
    requires
        0 <= k < orders.len(),
    ensures
        orders_hold(orders.remove(k), base, quote, user, asset) + order_hold(
            orders[k],
            base,
            quote,
            user,
            asset,
        ) == orders_hold(orders, base, quote, user, asset),
{
    let hold = |o: OrderView| order_hold(o, base, quote, user, asset);
    assert(orders.remove(k).map_values(hold) =~= orders.map_values(hold).remove(k));
    lemma_sum_remove(orders.map_values(hold), k);
}

/// A book in place of another changes what the books hold by the
/// difference of what the two hold.
pub proof fn lemma_books_hold_update(
    books: Seq<BookView>,
    k: int,
    book: BookView,
    user: Seq<char>,
    asset: Seq<char>,
)
    requires
        0 <= k < books.len(),
    ensures
        books_hold(books.update(k, book), user, asset) + book_hold(books[k], user, asset)
            == books_hold(books, user, asset) + book_hold(book, user, asset),
        book_hold(books[k], user, asset) <= books_hold(books, user, asset),
{
    let hold = |b: BookView| book_hold(b, user, asset);
    assert(books.update(k, book).map_values(hold) =~= books.map_values(hold).update(k, hold(book)));
    lemma_sum_update(books.map_values(hold), k, hold(book));
    lemma_sum_member(books.map_values(hold), k);
}

/// Matching keeps the makers on the order step, and its fills are for
/// positive quantities at positive prices on the order step that cross
/// the limit.
pub proof fn lemma_makers_stepped(
    makers: Seq<OrderView>,
    taker_side: OrderSide,
    limit: nat,
    want: nat,
    next_id: nat,
)
    requires
        all_resting(taker_side.opposite(), makers),
        stepped(makers),
        on_step(want),
    ensures
        stepped(makers_after(makers, taker_side, limit, want)),
        fills_stepped(matched_fills(makers, taker_side, limit, want, next_id)),
        on_step(filled_quantity(matched_fills(makers, taker_side, limit, want, next_id))),
        filled_quantity(matched_fills(makers, taker_side, limit, want, next_id)) <= want,
        forall|i: int|
            0 <= i < matched_fills(makers, taker_side, limit, want, next_id).len() ==> crosses(
                taker_side,
                limit,
                (#[trigger] matched_fills(makers, taker_side, limit, want, next_id)[i]).price,
            ),
{
    let fills = matched_fills(makers, taker_side, limit, want, next_id);
    let left = makers_after(makers, taker_side, limit, want);
    let n = fills.len() as int;
    lemma_matching_shape(makers, taker_side, limit, want, next_id);
    assert forall|i: int| 0 <= i < left.len() implies on_step((#[trigger] left[i]).price)
        && on_step(left[i].quantity) && on_step(left[i].filled) by {
        if n == 0 || fills[n - 1].qty == makers[n - 1].remaining() {
            assert(left[i] == makers[i + n]);
        } else if i == 0 {
            assert(on_step(makers[n - 1].filled));
            assert(on_step(fills[n - 1].qty));
        } else {
            assert(left[i] == makers[i + n - 1]);
        }
    }
    assert forall|i: int| 0 <= i < fills.len() implies 0 < (#[trigger] fills[i]).price && 0
        < fills[i].qty && on_step(fills[i].price) && on_step(fills[i].qty) by {
        assert(makers[i].resting());
    }
}

/// An order that comes to rest on the order step keeps its side on the
/// step.
pub proof fn lemma_rested_stepped(side: OrderSide, orders: Seq<OrderView>, order: OrderView)
    requires
        stepped(orders),
        on_step(order.price),
        on_step(order.quantity),
        on_step(order.filled),
    ensures
        stepped(rested(side, orders, order)),
{
    lemma_rest_index(side, orders, order.price);
    let k = rest_index(side, orders, order.price) as int;
    let after = orders.insert(k, order);
    assert forall|i: int| 0 <= i < after.len() implies on_step((#[trigger] after[i]).price)
        && on_step(after[i].quantity) && on_step(after[i].filled) by {
        if i < k {
            assert(after[i] == orders[i]);
        } else if i > k {
            assert(after[i] == orders[i - 1]);
        }
    }
}

/// An order that comes to rest adds what it holds to what its side holds.
pub proof fn lemma_rested_hold(
    side: OrderSide,
    orders: Seq<OrderView>,
    order: OrderView,
    base: Seq<char>,
    quote: Seq<char>,
    user: Seq<char>,
    asset: Seq<char>,
)
    ensures
        orders_hold(rested(side, orders, order), base, quote, user, asset) == orders_hold(
            orders,
            base,
            quote,
            user,
            asset,
        ) + order_hold(order, base, quote, user, asset),
{
    lemma_rest_index(side, orders, order.price);
    lemma_hold_inserted(
        orders,
        rest_index(side, orders, order.price) as int,
        order,
        base,
        quote,
        user,
        asset,
    );
}

/// What adding an order does to what a book holds: what the fills take
/// from the resting orders' users less, and what is left of the order
/// more.
#[verifier::rlimit(50)]
pub proof fn lemma_add_changes_hold(book: BookView, order: OrderView, user: Seq<char>, asset: Seq<char>)
    requires
        book.wf(),
        book.accepts(order),
        book_stepped(book),
        on_step(order.price),
        on_step(order.quantity),
    ensures
        ({
            let fills = book.fills_for(order);
            let executed = filled_quantity(fills);
            let base = book_base(book);
            let quote = book_quote(book);
            book_hold(book.after_add(order), user, asset) + maker_debits(
                fills,
                order.side.opposite(),
                base,
                quote,
                user,
                asset,
            ) == book_hold(book, user, asset) + (if executed < order.quantity {
                order_hold(order.fill(executed), base, quote, user, asset)
            } else {
                0
            })
        }),
{
    let side = order.side;
    let own = book.side(side);
    let makers = book.side(side.opposite());
    let fills = book.fills_for(order);
    let executed = filled_quantity(fills);
    let base = book_base(book);
    let quote = book_quote(book);
    let after = book.after_add(order);
    lemma_makers_hold(
        makers,
        side,
        order.price,
        order.quantity,
        book.last_trade_id,
        base,
        quote,
        user,
        asset,
    );
    if executed < order.quantity {
        lemma_rested_hold(side, own, order.fill(executed), base, quote, user, asset);
    }
    assert(book_base(after) == base && book_quote(after) == quote);
    assert(after.side(side.opposite()) == makers_after(
        makers,
        side,
        order.price,
        order.quantity,
    ));
    assert(after.side(side) == if executed < order.quantity {
        rested(side, own, order.fill(executed))
    } else {
        own
    });
    assert(book_hold(book, user, asset) == orders_hold(own, base, quote, user, asset)
        + orders_hold(makers, base, quote, user, asset));
    assert(book_hold(after, user, asset) == orders_hold(after.side(side), base, quote, user, asset)
        + orders_hold(after.side(side.opposite()), base, quote, user, asset));
}

/// Adding an order on the order step keeps a book on the step, and its
/// fills are on the step and cross the order's price.
pub proof fn lemma_add_keeps_step(book: BookView, order: OrderView)
    requires
        book.wf(),
        book.accepts(order),
        book_stepped(book),
        on_step(order.price),
        on_step(order.quantity),
    ensures
        book_stepped(book.after_add(order)),
        fills_stepped(book.fills_for(order)),
        on_step(filled_quantity(book.fills_for(order))),
        filled_quantity(book.fills_for(order)) <= order.quantity,
        forall|i: int|
            0 <= i < book.fills_for(order).len() ==> crosses(
                order.side,
                order.price,
                (#[trigger] book.fills_for(order)[i]).price,
            ),
{
    let side = order.side;
    let own = book.side(side);
    let makers = book.side(side.opposite());
    let executed = filled_quantity(book.fills_for(order));
    let after = book.after_add(order);
    lemma_makers_stepped(makers, side, order.price, order.quantity, book.last_trade_id);
    if executed < order.quantity {
        lemma_rested_stepped(side, own, order.fill(executed));
    }
    assert(after.side(side.opposite()) == makers_after(
        makers,
        side,
        order.price,
        order.quantity,
    ));
    assert(after.side(side) == if executed < order.quantity {
        rested(side, own, order.fill(executed))
    } else {
        own
    });
    assert(stepped(after.side(side)) && stepped(after.side(side.opposite())));
    assert(book_base(after) == book_base(book) && book_quote(after) == book_quote(book));
}

/// In a covered state, the fills of an order whose funds are locked can
/// be settled, and the state stays covered: the books with the order
/// added are backed by the ledger with the fills settled.
#[verifier::rlimit(50)]
pub proof fn lemma_order_stays_covered(
    ledger: Seq<EntryView>,
    books: Seq<BookView>,
    k: int,
    order: OrderView,
)
    requires
        ledger_wf(ledger),
        supply_in_range(ledger),
        0 <= k < books.len(),
        books[k].wf(),
        books[k].accepts(order),
        book_stepped(books[k]),
        on_step(order.price),
        on_step(order.quantity),
        forall|user: Seq<char>, asset: Seq<char>| #[trigger]
            books_hold(books, user, asset) <= locked_of(ledger, user, asset),
        reserved(
            ledger,
            order.user_id,
            lock_asset(order.side, book_base(books[k]), book_quote(books[k])),
            hold_amount(order.side, order.price, order.quantity),
        ) is Some,
    ensures
        ({
            let base = book_base(books[k]);
            let quote = book_quote(books[k]);
            let locked = reserved(
                ledger,
                order.user_id,
                lock_asset(order.side, base, quote),
                hold_amount(order.side, order.price, order.quantity),
            )->0;
            let fills = books[k].fills_for(order);
            let settled_ledger = settled(locked, order.user_id, order.side, base, quote, fills);
            &&& settled_ledger is Some
            &&& forall|user: Seq<char>, asset: Seq<char>| #[trigger]
                books_hold(books.update(k, books[k].after_add(order)), user, asset) <= locked_of(
                    settled_ledger->0,
                    user,
                    asset,
                )
        }),
{
    let book = books[k];
    let side = order.side;
    let taker = order.user_id;
    let base = book_base(book);
    let quote = book_quote(book);
    let locks = lock_asset(side, base, quote);
    let need = hold_amount(side, order.price, order.quantity);
    let locked = reserved(ledger, taker, locks, need)->0;
    let fills = book.fills_for(order);
    let executed = filled_quantity(fills);
    let after_book = book.after_add(order);
    lemma_reserved(ledger, taker, locks, need);
    lemma_add_keeps_step(book, order);
    lemma_taker_debits(fills, side, order.price, order.quantity);
    assert(supply_in_range(locked)) by {
        assert forall|a: Seq<char>| #[trigger] asset_total(locked, a) <= MAX_UNITS by {
            assert(asset_total(locked, a) == asset_total(ledger, a));
        }
    }
    assert forall|user: Seq<char>, asset: Seq<char>| #[trigger]
        fill_debits(fills, taker, side, base, quote, user, asset) <= locked_of(
            locked,
            user,
            asset,
        ) by {
        lemma_fill_debits_split(fills, taker, side, base, quote, user, asset);
        lemma_reserved_locked(ledger, taker, locks, need, user, asset);
        lemma_add_changes_hold(book, order, user, asset);
        lemma_books_hold_update(books, k, after_book, user, asset);
        assert(books_hold(books, user, asset) <= locked_of(ledger, user, asset));
    }
    lemma_fills_settle(locked, taker, side, base, quote, fills);
    let settled_ledger = settled(locked, taker, side, base, quote, fills)->0;
    assert forall|user: Seq<char>, asset: Seq<char>| #[trigger]
        books_hold(books.update(k, after_book), user, asset) <= locked_of(
            settled_ledger,
            user,
            asset,
        ) by {
        lemma_fill_debits_split(fills, taker, side, base, quote, user, asset);
        lemma_reserved_locked(ledger, taker, locks, need, user, asset);
        lemma_add_changes_hold(book, order, user, asset);
        lemma_books_hold_update(books, k, after_book, user, asset);
        assert(books_hold(books, user, asset) <= locked_of(ledger, user, asset));
        assert(locked_of(settled_ledger, user, asset) == locked_of(locked, user, asset)
            - fill_debits(fills, taker, side, base, quote, user, asset));
    }
}

/// An order that leaves a book takes what it holds from what the book
/// holds, and the book stays on the order step.
pub proof fn lemma_without_changes_hold(
    book: BookView,
    side: OrderSide,
    id: Seq<char>,
    user: Seq<char>,
    asset: Seq<char>,
)
    requires
        first_with_id(book.side(side), id) < book.side(side).len(),
    ensures
        book_hold(book.without(side, id), user, asset) + order_hold(
            book.side(side)[first_with_id(book.side(side), id) as int],
            book_base(book),
            book_quote(book),
            user,
            asset,
        ) == book_hold(book, user, asset),
        order_hold(
            book.side(side)[first_with_id(book.side(side), id) as int],
            book_base(book),
            book_quote(book),
            user,
            asset,
        ) <= book_hold(book, user, asset),
        book_stepped(book) ==> book_stepped(book.without(side, id)),
{
    let orders = book.side(side);
    let k = first_with_id(orders, id) as int;
    let after = book.without(side, id);
    lemma_hold_removed(orders, k, book_base(book), book_quote(book), user, asset);
    assert(book_base(after) == book_base(book) && book_quote(after) == book_quote(book));
    assert(after.side(side) == orders.remove(k));
    assert(after.side(side.opposite()) == book.side(side.opposite()));
    assert(book_hold(book, user, asset) == orders_hold(
        orders,
        book_base(book),
        book_quote(book),
        user,
        asset,
    ) + orders_hold(book.side(side.opposite()), book_base(book), book_quote(book), user, asset));
    assert(book_hold(after, user, asset) == orders_hold(
        orders.remove(k),
        book_base(book),
        book_quote(book),
        user,
        asset,
    ) + orders_hold(book.side(side.opposite()), book_base(book), book_quote(book), user, asset));
    if book_stepped(book) {
        assert forall|i: int| 0 <= i < orders.remove(k).len() implies on_step(
            (#[trigger] orders.remove(k)[i]).price,
        ) && on_step(orders.remove(k)[i].quantity) && on_step(orders.remove(k)[i].filled) by {
            if i < k {
                assert(orders.remove(k)[i] == orders[i]);
            } else {
                assert(orders.remove(k)[i] == orders[i + 1]);
            }
        }
    }
}

/// No overdraft on placing an order. In a covered state the fills of an
/// order that the engine takes can always be settled, and the state after
/// it is covered.
#[verifier::rlimit(50)]
pub proof fn lemma_place_stays_covered(
    before: EngineView,
    after: EngineView,
    market: Seq<char>,
    price_text: Seq<char>,
    quantity_text: Seq<char>,
    side: OrderSide,
    user: Seq<char>,
    id: Seq<char>,
)
    requires
        covered(before),
        places(before, after, market, price_text, quantity_text, side, user, id),
    ensures
        !cannot_settle(before, market, price_text, quantity_text, side, user, id),
        covered(after),
{
    lemma_place_keeps_totals(before, after, market, price_text, quantity_text, side, user, id);
    assert(supply_in_range(after.ledger)) by {
        assert forall|a: Seq<char>| #[trigger] asset_total(after.ledger, a) <= MAX_UNITS by {
            assert(asset_total(after.ledger, a) == asset_total(before.ledger, a));
        }
    }
    match create_plan(before, market, price_text, quantity_text, side, user, id) {
        Err(_) => {},
        Ok(ticket) => {
            let k = market_index(before.books, market) as int;
            let book = before.books[k];
            let order = ticket.order;
            lemma_market_index(before.books, market);
            assert(book_base(book) == ticket.base && book_quote(book) == ticket.quote);
            assert(book_stepped(book));
            lemma_order_stays_covered(before.ledger, before.books, k, order);
            lemma_add_keeps_step(book, order);
            assert forall|i: int| 0 <= i < after.books.len() implies book_stepped(
                #[trigger] after.books[i],
            ) by {
                if i != k {
                    assert(after.books[i] == before.books[i]);
                }
            }
        },
    }
}

/// No overdraft on a request to place an order. In a covered state the
/// request never ends in the failure after which the engine must not go
/// on, and the state after it is covered.
pub proof fn lemma_create_stays_covered(
    before: EngineView,
    after: EngineView,
    data: CreateOrderData,
    client: Seq<char>,
    id: Seq<char>,
    timestamp: u64,
    result: Result<Outcome, EngineError>,
)
    requires
        covered(before),
        handles_create(before, after, data, client, id, timestamp, result),
    ensures
        result is Ok,
        covered(after),
{
    lemma_place_stays_covered(
        before,
        after,
        data.market@,
        data.price@,
        data.quantity@,
        side_of_text(data.side@),
        data.user_id@,
        id,
    );
}

/// No overdraft on cancelling. In a covered state a request to cancel an
/// order never ends in the failure after which the engine must not go on,
/// and the state after it is covered.
#[verifier::rlimit(50)]
pub proof fn lemma_cancel_stays_covered(
    before: EngineView,
    after: EngineView,
    data: CancelOrderDAta,
    client: Seq<char>,
    result: Result<Outcome, EngineError>,
)
    requires
        covered(before),
        handles_cancel(before, after, data, client, result),
    ensures
        result is Ok,
        covered(after),
{
    let market = data.market@;
    let id = data.order_id@;
    if before.trades(market) {
        let k = market_index(before.books, market) as int;
        let book = before.books[k];
        lemma_market_index(before.books, market);
        lemma_first_with_id(book.bids, id);
        lemma_first_with_id(book.asks, id);
        match book.order_with(id) {
            None => {},
            Some(order) => {
                let base = market_base(market);
                let quote = market_quote(market);
                let side = order.side;
                let orders = book.side(side);
                let j = first_with_id(orders, id) as int;
                let asset = lock_asset(side, base, quote);
                let amount = hold_amount(side, order.price, order.remaining());
                assert(book.wf() && book_stepped(book));
                assert(orders[j] == order);
                assert(order.resting());
                assert(on_step(order.price) && on_step(order.quantity) && on_step(order.filled));
                assert(on_step(order.remaining()));
                // What the order holds is locked, hence an amount.
                lemma_without_changes_hold(book, side, id, order.user_id, asset);
                lemma_books_hold_update(before.books, k, book.without(side, id), order.user_id, asset);
                lemma_locked_in_range(before.ledger, order.user_id, asset);
                lemma_product_on_step(order.price, order.remaining());
                assert(order_hold(order, base, quote, order.user_id, asset) == amount);
                assert(amount <= locked_of(before.ledger, order.user_id, asset));
                assert(residual_lock(order) == Some(amount));
                lemma_entry_index(before.ledger, order.user_id, asset);
                assert(released(before.ledger, order.user_id, asset, amount) is Some);
                lemma_cancel_keeps_totals(before, after, data, client, result);
                assert(supply_in_range(after.ledger)) by {
                    assert forall|a: Seq<char>| #[trigger]
                        asset_total(after.ledger, a) <= MAX_UNITS by {
                        assert(asset_total(after.ledger, a) == asset_total(before.ledger, a));
                    }
                }
                assert forall|i: int| 0 <= i < after.books.len() implies book_stepped(
                    #[trigger] after.books[i],
                ) by {
                    if i != k {
                        assert(after.books[i] == before.books[i]);
                    }
                }
                assert forall|u: Seq<char>, a: Seq<char>| #[trigger]
                    books_hold(after.books, u, a) <= locked_of(after.ledger, u, a) by {
                    lemma_without_changes_hold(book, side, id, u, a);
                    lemma_books_hold_update(before.books, k, book.without(side, id), u, a);
                    lemma_reserved_locked(before.ledger, order.user_id, asset, amount, u, a);
                    assert(books_hold(before.books, u, a) <= locked_of(before.ledger, u, a));
                }
            },
        }
    }
}

/// A deposit that keeps the total within range leaves a covered state
/// covered.
pub proof fn lemma_deposit_stays_covered(
    before: EngineView,
    after: EngineView,
    user: Seq<char>,
    asset: Seq<char>,
    amount: nat,
)
    requires
        covered(before),
        can_deposit(before.ledger, asset, amount),
        after.books == before.books,
        after.ledger == credited(before.ledger, user, asset, amount),
    ensures
        covered(after),
{
    lemma_deposit_credits(before.ledger, user, asset, amount);
    lemma_credited(before.ledger, user, asset, amount);
    assert forall|u: Seq<char>, a: Seq<char>| #[trigger]
        books_hold(after.books, u, a) <= locked_of(after.ledger, u, a) by {
        lemma_credited_locked(before.ledger, user, asset, amount, u, a);
        assert(books_hold(before.books, u, a) <= locked_of(before.ledger, u, a));
    }
    assert forall|a: Seq<char>| #[trigger] asset_total(after.ledger, a) <= MAX_UNITS by {
        assert(asset_total(before.ledger, a) <= MAX_UNITS);
    }
}

/// A market without orders that trades one asset against another, added
/// to a covered state, leaves it covered.
pub proof fn lemma_new_market_stays_covered(before: EngineView, after: EngineView, book: BookView)
    requires
        covered(before),
        book.wf(),
        book.bids.len() == 0,
        book.asks.len() == 0,
        book_base(book) != book_quote(book),
        after.books == before.books.push(book),
        after.ledger == before.ledger,
    ensures
        covered(after),
{
    assert forall|i: int| 0 <= i < after.books.len() implies (#[trigger] after.books[i]).wf()
        && book_stepped(after.books[i]) by {
        if i < before.books.len() {
            assert(after.books[i] == before.books[i]);
        }
    }
    assert forall|u: Seq<char>, a: Seq<char>| #[trigger]
        books_hold(after.books, u, a) <= locked_of(after.ledger, u, a) by {
        let hold = |b: BookView| book_hold(b, u, a);
        assert(after.books.map_values(hold).drop_last() =~= before.books.map_values(hold));
        assert(holds_each(book.bids, book_base(book), book_quote(book), u, a) =~= Seq::<
            nat,
        >::empty());
        assert(holds_each(book.asks, book_base(book), book_quote(book), u, a) =~= Seq::<
            nat,
        >::empty());
        assert(books_hold(before.books, u, a) <= locked_of(before.ledger, u, a));
    }
}

/// No overdraft. In a covered state no command ends in the failure after
/// which the engine must not go on, and every command leaves the state
/// covered.
#[verifier::rlimit(50)]
pub proof fn lemma_command_stays_covered(
    before: EngineView,
    after: EngineView,
    message: MessageFromApi,
    id: Seq<char>,
    timestamp: u64,
    result: Result<Outcome, EngineError>,
)
    requires
        covered(before),
        applies(before, after, message, id, timestamp, result),
    ensures
        result is Ok,
        covered(after),
{
    match message {
        MessageFromApi::CreateOrder { data, client_id } => {
            lemma_create_stays_covered(before, after, data, client_id@, id, timestamp, result);
        },
        MessageFromApi::CancelOrder { data, client_id } => {
            lemma_cancel_stays_covered(before, after, data, client_id@, result);
        },
        MessageFromApi::OnRame { data, client_id } => {
            match amount_of_text(data.amount@) {
                Ok(amount) => {
                    if can_deposit(before.ledger, BASE_CURRENCY@, amount) {
                        lemma_deposit_stays_covered(
                            before,
                            after,
                            data.user_id@,
                            BASE_CURRENCY@,
                            amount,
                        );
                    }
                },
                Err(_) => {},
            }
        },
        MessageFromApi::GetDepth { data, client_id } => {},
        MessageFromApi::GetOpenOrders { data, client_id } => {},
    }
}

/// No overdraft, over any sequence of commands. From a covered state the
/// engine goes through covered states only, and no command ends in the
/// failure after which it must not go on.
pub proof fn lemma_run_stays_covered(states: Seq<EngineView>, steps: Seq<Step>)
    requires
        is_run(states, steps),
        covered(states[0]),
    ensures
        forall|i: int| 0 <= i < states.len() ==> covered(#[trigger] states[i]),
        forall|i: int| 0 <= i < steps.len() ==> (#[trigger] steps[i]).result is Ok,
    decreases steps.len(),
{
    if steps.len() > 0 {
        let n = steps.len() as int;
        let earlier = states.drop_last();
        let steps_before = steps.drop_last();
        assert forall|i: int| 0 <= i < steps_before.len() implies applies(
            earlier[i],
            earlier[i + 1],
            (#[trigger] steps_before[i]).message,
            steps_before[i].id,
            steps_before[i].timestamp,
            steps_before[i].result,
        ) by {
            assert(steps_before[i] == steps[i]);
        }
        lemma_run_stays_covered(earlier, steps_before);
        assert(earlier[n - 1] == states[n - 1]);
        let last = steps[n - 1];
        lemma_command_stays_covered(
            states[n - 1],
            states[n],
            last.message,
            last.id,
            last.timestamp,
            last.result,
        );
        assert forall|i: int| 0 <= i < states.len() implies covered(#[trigger] states[i]) by {
            if i < n {
                assert(earlier[i] == states[i]);
            }
        }
        assert forall|i: int| 0 <= i < steps.len() implies (#[trigger] steps[i]).result is Ok by {
            if i < n - 1 {
                assert(steps_before[i] == steps[i]);
            }
        }
    }
}

/// A state without resting orders is covered where it is well-formed, its
/// totals are within range, and each book trades one asset against
/// another.
pub proof fn lemma_empty_books_covered(engine: EngineView)
    requires
        engine.wf(),
        supply_in_range(engine.ledger),
        forall|i: int|
            0 <= i < engine.books.len() ==> {
                &&& (#[trigger] engine.books[i]).bids.len() == 0
                &&& engine.books[i].asks.len() == 0
                &&& book_base(engine.books[i]) != book_quote(engine.books[i])
            },
    ensures
        covered(engine),
{
    assert forall|user: Seq<char>, asset: Seq<char>| #[trigger]
        books_hold(engine.books, user, asset) <= locked_of(engine.ledger, user, asset) by {
        let each = engine.books.map_values(|b: BookView| book_hold(b, user, asset));
        assert forall|i: int| 0 <= i < each.len() implies (#[trigger] each[i]) == 0 by {
            let book = engine.books[i];
            assert(holds_each(book.bids, book_base(book), book_quote(book), user, asset)
                =~= Seq::<nat>::empty());
            assert(holds_each(book.asks, book_base(book), book_quote(book), user, asset)
                =~= Seq::<nat>::empty());
        }
        lemma_sum_zero(each);
    }
}

/// Zeros add up to zero.
pub proof fn lemma_sum_zero(numbers: Seq<nat>)
    requires
        forall|i: int| 0 <= i < numbers.len() ==> (#[trigger] numbers[i]) == 0,
    ensures
        seq_sum(numbers) == 0,
    decreases numbers.len(),
{
    if numbers.len() > 0 {
        assert forall|i: int| 0 <= i < numbers.drop_last().len() implies (#[trigger] numbers.drop_last()[i])
            == 0 by {
            assert(numbers.drop_last()[i] == numbers[i]);
        }
        lemma_sum_zero(numbers.drop_last());
    }
}

} // verus!
