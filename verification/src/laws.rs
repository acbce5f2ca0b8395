//! Laws of the engine, proved of every state and every command.

use crate::amount::{amount_of_text, MAX_UNITS};
use crate::engine::{
    applies, create_plan, handles_cancel, handles_create, is_deposit, lemma_market_index,
    market_index, places, ramped, same_totals, side_of_text, EngineError, EngineView, Outcome,
};
use crate::ledger::{
    asset_total, available_of, can_deposit, entry_index, ledger_wf, lemma_credited,
    lemma_deposit_credits, lemma_entry_index, lemma_reserved, lemma_settled,
    lemma_update_keeps_keys, lock_amount, lock_asset, locked_of, released, residual_lock, settled,
    unlock_outcome, EntryView,
};
use crate::order::{filled_quantity, FillView, OrderSide, OrderView};
use crate::orderbook::{
    all_resting, crosses, first_with_id, has_id, lemma_after_add_wf, lemma_first_with_id,
    lemma_matching, lemma_rest_index, lemma_without_wf, makers_after, outranks, priority_sorted,
    rest_index, rested, total_remaining, BookView, BASE_CURRENCY,
};
use crate::text::{market_base, market_quote};
use crate::types::api::{CancelOrderDAta, CreateOrderData, MessageFromApi, MessageToApi};
use vstd::prelude::*;

verus! {

/// Price-time priority. The fills of an incoming order go down the
/// opposite side of the book in its order, one fill for each resting order
/// from the head: a resting order is never passed over. As that side is
/// kept best price first, the prices of the fills never get better: they
/// do not fall for an incoming buy and do not rise for an incoming sell.
pub proof fn lemma_fills_follow_priority(book: BookView, order: OrderView)
    requires
        book.wf(),
        book.accepts(order),
    ensures
        ({
            let fills = book.fills_for(order);
            let makers = book.side(order.side.opposite());
            &&& fills.len() <= makers.len()
            &&& forall|i: int|
                0 <= i < fills.len() ==> {
                    &&& (#[trigger] fills[i]).marker_order_id == makers[i].order_id
                    &&& fills[i].other_user_id == makers[i].user_id
                    &&& fills[i].price == makers[i].price
                    &&& crosses(order.side, order.price, fills[i].price)
                }
            &&& forall|i: int, j: int|
                0 <= i < j < fills.len() ==> match order.side {
                    OrderSide::Buy => (#[trigger] fills[i]).price <= (#[trigger] fills[j]).price,
                    OrderSide::Sell => fills[i].price >= fills[j].price,
                }
        }),
{
    let fills = book.fills_for(order);
    let makers = book.side(order.side.opposite());
    lemma_matching(makers, order.side, order.price, order.quantity, book.last_trade_id);
    assert forall|i: int, j: int| 0 <= i < j < fills.len() implies match order.side {
        OrderSide::Buy => (#[trigger] fills[i]).price <= (#[trigger] fills[j]).price,
        OrderSide::Sell => fills[i].price >= fills[j].price,
    } by {
        assert(!outranks(order.side.opposite(), makers[j].price, makers[i].price));
    }
}

/// Time priority at rest. What is left of an incoming order comes to rest
/// behind every order of its side with the same or a better price, and
/// before every order with a worse one; the orders that were there keep
/// their order.
pub proof fn lemma_rests_behind_earlier_orders(side: OrderSide, orders: Seq<OrderView>, order: OrderView)
    requires
        all_resting(side, orders),
        priority_sorted(side, orders),
    ensures
        ({
            let k = rest_index(side, orders, order.price) as int;
            &&& 0 <= k <= orders.len()
            &&& rested(side, orders, order) == orders.insert(k, order)
            &&& forall|i: int| 0 <= i < k ==> !outranks(side, order.price, (#[trigger] orders[i]).price)
            &&& forall|i: int|
                k <= i < orders.len() ==> outranks(side, order.price, (#[trigger] orders[i]).price)
        }),
{
    let k = rest_index(side, orders, order.price) as int;
    lemma_rest_index(side, orders, order.price);
    assert forall|i: int| k <= i < orders.len() implies outranks(
        side,
        order.price,
        (#[trigger] orders[i]).price,
    ) by {
        if i > k {
            assert(!outranks(side, orders[i].price, orders[k].price));
        }
    }
}

/// Fill accounting. The fills of an incoming order add up to no more than
/// its quantity, and to exactly what the resting orders lose. Where they
/// add up to its quantity nothing of it rests; otherwise the order rests
/// on its side with the difference left to trade, and no resting order
/// that is left crosses its price.
#[verifier::rlimit(50)]
pub proof fn lemma_fill_accounting(book: BookView, order: OrderView)
    requires
        book.wf(),
        book.accepts(order),
    ensures
        ({
            let fills = book.fills_for(order);
            let executed = filled_quantity(fills);
            let after = book.after_add(order);
            let own = book.side(order.side);
            let makers = book.side(order.side.opposite());
            let k = rest_index(order.side, own, order.price) as int;
            &&& executed <= order.quantity
            &&& forall|i: int| 0 <= i < fills.len() ==> 0 < (#[trigger] fills[i]).qty
            &&& total_remaining(after.side(order.side.opposite())) + executed == total_remaining(
                makers,
            )
            &&& executed == order.quantity ==> after.side(order.side) == own
            &&& executed < order.quantity ==> {
                &&& 0 <= k <= own.len()
                &&& after.side(order.side) == own.insert(k, order.fill(executed))
                &&& order.fill(executed).remaining() == order.quantity - executed
                &&& forall|j: int|
                    0 <= j < after.side(order.side.opposite()).len() ==> !crosses(
                        order.side,
                        order.price,
                        (#[trigger] after.side(order.side.opposite())[j]).price,
                    )
            }
        }),
{
    let makers = book.side(order.side.opposite());
    lemma_matching(makers, order.side, order.price, order.quantity, book.last_trade_id);
    lemma_rest_index(order.side, book.side(order.side), order.price);
}

/// Trade ids. The fills of an incoming order carry the book's next trade
/// ids, one after the other, and the book's counter moves on by their
/// number: no id is given twice in the life of a book.
pub proof fn lemma_trade_ids_count_up(book: BookView, order: OrderView)
    requires
        book.wf(),
        book.accepts(order),
    ensures
        ({
            let fills = book.fills_for(order);
            &&& forall|i: int|
                0 <= i < fills.len() ==> (#[trigger] fills[i]).trade_id == book.last_trade_id + i
            &&& book.after_add(order).last_trade_id == book.last_trade_id + fills.len()
        }),
{
    let makers = book.side(order.side.opposite());
    lemma_matching(makers, order.side, order.price, order.quantity, book.last_trade_id);
}

/// Placing an order keeps the state well-formed and the total of every
/// asset.
#[verifier::rlimit(50)]
pub proof fn lemma_place_keeps_totals(
    before: EngineView,
    after: EngineView,
    market: Seq<char>,
    price_text: Seq<char>,
    quantity_text: Seq<char>,
    side: OrderSide,
    user: Seq<char>,
    id: Seq<char>,
)
    requires
        before.wf(),
        places(before, after, market, price_text, quantity_text, side, user, id),
    ensures
        after.wf(),
        same_totals(after.ledger, before.ledger),
{
    match create_plan(before, market, price_text, quantity_text, side, user, id) {
        Err(_) => {},
        Ok(ticket) => {
            let book = before.book(market);
            let fills = book.fills_for(ticket.order);
            let need = lock_amount(side, ticket.order.price, ticket.order.quantity)->0;
            lemma_reserved(before.ledger, user, lock_asset(side, ticket.base, ticket.quote), need);
            lemma_after_add_wf(book, ticket.order);
            assert(ledger_wf(ticket.locked));
            assert(same_totals(ticket.locked, before.ledger));
            if settled(ticket.locked, user, side, ticket.base, ticket.quote, fills) is Some {
                lemma_settled(ticket.locked, user, side, ticket.base, ticket.quote, fills);
            }
            assert forall|a: Seq<char>| #[trigger]
                asset_total(after.ledger, a) == asset_total(before.ledger, a) by {
                assert(asset_total(ticket.locked, a) == asset_total(before.ledger, a));
            }
        },
    }
}

/// A request to place an order keeps the state well-formed and the total
/// of every asset.
pub proof fn lemma_create_keeps_totals(
    before: EngineView,
    after: EngineView,
    data: CreateOrderData,
    client: Seq<char>,
    id: Seq<char>,
    timestamp: u64,
    result: Result<Outcome, EngineError>,
)
    requires
        before.wf(),
        handles_create(before, after, data, client, id, timestamp, result),
    ensures
        after.wf(),
        same_totals(after.ledger, before.ledger),
{
    lemma_place_keeps_totals(
        before,
        after,
        data.market@,
        data.price@,
        data.quantity@,
        side_of_text(data.side@),
        data.user_id@,
        id,
    );
}

/// Cancelling an order keeps the state well-formed and the total of every
/// asset.
#[verifier::rlimit(50)]
pub proof fn lemma_cancel_keeps_totals(
    before: EngineView,
    after: EngineView,
    data: CancelOrderDAta,
    client: Seq<char>,
    result: Result<Outcome, EngineError>,
)
    requires
        before.wf(),
        handles_cancel(before, after, data, client, result),
    ensures
        after.wf(),
        same_totals(after.ledger, before.ledger),
{
    if before.trades(data.market@) {
        let book = before.book(data.market@);
        match book.order_with(data.order_id@) {
            None => {},
            Some(order) => {
                let base = market_base(data.market@);
                let quote = market_quote(data.market@);
                match unlock_outcome(before.ledger, order, base, quote) {
                    None => {},
                    Some(ledger) => {
                        let amount = residual_lock(order)->0;
                        lemma_reserved(
                            before.ledger,
                            order.user_id,
                            lock_asset(order.side, base, quote),
                            amount,
                        );
                        lemma_without_wf(book, order.side, data.order_id@);
                    },
                }
            },
        }
    }
}

/// Conservation, one command at a time. Every command keeps the state
/// well-formed. A command that is no deposit keeps the total of every
/// asset, available and locked over all users; a deposit keeps the total
/// of every asset but the base currency, whose total it does not lower.
pub proof fn lemma_command_keeps_totals(
    before: EngineView,
    after: EngineView,
    message: MessageFromApi,
    id: Seq<char>,
    timestamp: u64,
    result: Result<Outcome, EngineError>,
)
    requires
        before.wf(),
        applies(before, after, message, id, timestamp, result),
    ensures
        after.wf(),
        !is_deposit(message) ==> same_totals(after.ledger, before.ledger),
        forall|a: Seq<char>|
            a != BASE_CURRENCY@ ==> #[trigger] asset_total(after.ledger, a) == asset_total(
                before.ledger,
                a,
            ),
        asset_total(after.ledger, BASE_CURRENCY@) >= asset_total(before.ledger, BASE_CURRENCY@),
{
    match message {
        MessageFromApi::CreateOrder { data, client_id } => {
            lemma_create_keeps_totals(before, after, data, client_id@, id, timestamp, result);
        },
        MessageFromApi::CancelOrder { data, client_id } => {
            lemma_cancel_keeps_totals(before, after, data, client_id@, result);
        },
        MessageFromApi::OnRame { data, client_id } => {
            match amount_of_text(data.amount@) {
                Ok(amount) => {
                    if can_deposit(before.ledger, BASE_CURRENCY@, amount) {
                        lemma_deposit_credits(before.ledger, data.user_id@, BASE_CURRENCY@, amount);
                        lemma_credited(before.ledger, data.user_id@, BASE_CURRENCY@, amount);
                    }
                },
                Err(_) => {},
            }
            assert(after.ledger == ramped(before.ledger, data.user_id@, data.amount@));
        },
        MessageFromApi::GetDepth { data, client_id } => {},
        MessageFromApi::GetOpenOrders { data, client_id } => {},
    }
}

/// One command as the engine applied it: the command, the id for the
/// order that it may place, the time, and the result.
pub struct Step {
    pub message: MessageFromApi,
    pub id: Seq<char>,
    pub timestamp: u64,
    pub result: Result<Outcome, EngineError>,
}

/// Whether `states` are the states that the engine goes through as it
/// applies `steps` one after the other.
pub open spec fn is_run(states: Seq<EngineView>, steps: Seq<Step>) -> bool {
    &&& states.len() == steps.len() + 1
    &&& forall|i: int|
        0 <= i < steps.len() ==> applies(
            states[i],
            states[i + 1],
            (#[trigger] steps[i]).message,
            steps[i].id,
            steps[i].timestamp,
            steps[i].result,
        )
}

/// Conservation. Over any sequence of commands without a deposit, the
/// total of every asset, available and locked over all users, stays what
/// it was; and every state on the way is well-formed, so that no balance
/// is ever below zero or out of range.
#[verifier::rlimit(50)]
pub proof fn lemma_conservation(states: Seq<EngineView>, steps: Seq<Step>)
    requires
        is_run(states, steps),
        states[0].wf(),
        forall|i: int| 0 <= i < steps.len() ==> !is_deposit((#[trigger] steps[i]).message),
    ensures
        forall|i: int| 0 <= i < states.len() ==> (#[trigger] states[i]).wf(),
        forall|i: int| 0 <= i < states.len() ==> same_totals((#[trigger] states[i]).ledger, states[0].ledger),
    decreases steps.len(),
{
    if steps.len() > 0 {
        let n = steps.len() as int;
        let earlier = states.drop_last();
        let steps_before = steps.drop_last();
        assert forall|i: int| 0 <= i < steps_before.len() implies applies(
            earlier[i],
            earlier[i + 1],
            (#[trigger] steps_before[i]).message,
            steps_before[i].id,
            steps_before[i].timestamp,
            steps_before[i].result,
        ) by {
            assert(steps_before[i] == steps[i]);
        }
        assert forall|i: int| 0 <= i < steps_before.len() implies !is_deposit(
            (#[trigger] steps_before[i]).message,
        ) by {
            assert(steps_before[i] == steps[i]);
        }
        lemma_conservation(earlier, steps_before);
        assert(earlier[n - 1] == states[n - 1]);
        assert(earlier[n - 1].wf());
        let last = steps[n - 1];
        lemma_command_keeps_totals(
            states[n - 1],
            states[n],
            last.message,
            last.id,
            last.timestamp,
            last.result,
        );
        assert forall|i: int| 0 <= i < states.len() implies (#[trigger] states[i]).wf()
            && same_totals(states[i].ledger, states[0].ledger) by {
            if i < n {
                assert(earlier[i] == states[i]);
                assert(same_totals(earlier[i].ledger, earlier[0].ledger));
            } else {
                assert(same_totals(earlier[n - 1].ledger, earlier[0].ledger));
                assert forall|a: Seq<char>| #[trigger]
                    asset_total(states[n].ledger, a) == asset_total(states[0].ledger, a) by {
                    assert(asset_total(states[n - 1].ledger, a) == asset_total(states[0].ledger, a));
                }
            }
        }
    }
}

/// Balances are never below zero: in a well-formed state every entry holds
/// available and locked amounts from zero to the largest amount.
pub proof fn lemma_balances_in_range(engine: EngineView, i: int)
    requires
        engine.wf(),
        0 <= i < engine.ledger.len(),
    ensures
        0 <= engine.ledger[i].available <= MAX_UNITS,
        0 <= engine.ledger[i].locked <= MAX_UNITS,
{
    assert(engine.ledger[i].total() <= MAX_UNITS);
}

/// Cancelling what is not there. A request to cancel an order in a market
/// that no book trades, or an order that does not rest in the book,
/// changes nothing, and the reply is a cancellation with nothing executed
/// and nothing remaining.
pub proof fn lemma_cancel_absent_changes_nothing(
    before: EngineView,
    after: EngineView,
    data: CancelOrderDAta,
    client: Seq<char>,
    result: Result<Outcome, EngineError>,
)
    requires
        handles_cancel(before, after, data, client, result),
        !before.trades(data.market@) || !before.book(data.market@).holds(data.order_id@),
    ensures
        after == before,
        result matches Ok(outcome) && outcome.ws@.len() == 0 && outcome.db@.len() == 0 && (
        outcome.reply matches Some(reply) && reply.client_id@ == client && (
        reply.message matches MessageToApi::OrderCancelled { payload } && payload.executed_qty@ == 0
            && payload.remaining_qty@ == 0)),
{
}

/// Books with the same names, place by place, trade the same markets.
proof fn lemma_market_index_same_names(a: Seq<BookView>, b: Seq<BookView>, market: Seq<char>)
    requires
        a.len() == b.len(),
        forall|i: int|
            0 <= i < a.len() ==> (#[trigger] a[i]).base_asset == b[i].base_asset && a[i].quote_asset
                == b[i].quote_asset,
    ensures
        market_index(a, market) == market_index(b, market),
    decreases a.len(),
{
    if a.len() > 0 {
        assert(a[0].base_asset == b[0].base_asset && a[0].quote_asset == b[0].quote_asset);
        assert forall|i: int| 0 <= i < a.skip(1).len() implies (#[trigger] a.skip(1)[i]).base_asset
            == b.skip(1)[i].base_asset && a.skip(1)[i].quote_asset == b.skip(1)[i].quote_asset by {
            assert(a.skip(1)[i] == a[i + 1]);
            assert(b.skip(1)[i] == b[i + 1]);
        }
        lemma_market_index_same_names(a.skip(1), b.skip(1), market);
    }
}

/// An order that has come to rest whole is the one that its id finds, and
/// taking it out gives back the side as it was.
proof fn lemma_rested_then_removed(side: OrderSide, orders: Seq<OrderView>, order: OrderView)
    requires
        !has_id(orders, order.order_id),
    ensures
        ({
            let after = rested(side, orders, order);
            let k = first_with_id(after, order.order_id) as int;
            &&& k == rest_index(side, orders, order.price)
            &&& k < after.len()
            &&& after[k] == order
            &&& after.remove(k) == orders
            &&& has_id(after, order.order_id)
        }),
{
    let after = rested(side, orders, order);
    let at = rest_index(side, orders, order.price) as int;
    lemma_rest_index(side, orders, order.price);
    lemma_first_with_id(after, order.order_id);
    assert(after[at] == order);
    let k = first_with_id(after, order.order_id) as int;
    if k < at {
        assert(after[k] == orders[k]);
        assert(orders[k].order_id == order.order_id);
    }
    assert(after.remove(at) =~= orders);
}

/// Round trip. An order that the engine takes and that does not trade,
/// followed by the cancellation of that order, leaves the engine as it
/// was before the order: every balance of every user, and every book.
#[verifier::rlimit(50)]
pub proof fn lemma_create_then_cancel(
    start: EngineView,
    placed: EngineView,
    end: EngineView,
    create: CreateOrderData,
    cancel: CancelOrderDAta,
    id: Seq<char>,
    timestamp: u64,
    creator: Seq<char>,
    canceller: Seq<char>,
    created: Result<Outcome, EngineError>,
    cancelled: Result<Outcome, EngineError>,
)
    requires
        start.wf(),
        handles_create(start, placed, create, creator, id, timestamp, created),
        create_plan(
            start,
            create.market@,
            create.price@,
            create.quantity@,
            side_of_text(create.side@),
            create.user_id@,
            id,
        ) matches Ok(ticket) && start.book(create.market@).fills_for(ticket.order).len() == 0,
        cancel.market@ == create.market@,
        cancel.order_id@ == id,
        handles_cancel(placed, end, cancel, canceller, cancelled),
    ensures
        end == start,
        cancelled is Ok,
        forall|user: Seq<char>, asset: Seq<char>|
            available_of(end.ledger, user, asset) == available_of(start.ledger, user, asset)
                && locked_of(end.ledger, user, asset) == locked_of(start.ledger, user, asset),
{
    let market = create.market@;
    let side = side_of_text(create.side@);
    let user = create.user_id@;
    let ticket = create_plan(start, market, create.price@, create.quantity@, side, user, id)->Ok_0;
    let order = ticket.order;
    let book = start.book(market);
    let at = market_index(start.books, market) as int;
    let fills = book.fills_for(order);
    let own = book.side(side);
    let makers = book.side(side.opposite());
    let asset = lock_asset(side, ticket.base, ticket.quote);
    let need = lock_amount(side, order.price, order.quantity)->0;
    lemma_market_index(start.books, market);
    // The order did not trade: it rests whole and the makers stay.
    assert(fills =~= Seq::<FillView>::empty());
    assert(filled_quantity(fills) == 0);
    assert(order.fill(0) == order);
    assert(makers_after(makers, side, order.price, order.quantity) == makers);
    let rested_book = book.after_add(order);
    assert(settled(ticket.locked, user, side, ticket.base, ticket.quote, fills) == Some(
        ticket.locked,
    ));
    assert(placed.ledger == ticket.locked);
    assert(placed.books == start.books.update(at, rested_book));
    // The cancellation finds the market and the order.
    assert forall|i: int| 0 <= i < placed.books.len() implies (#[trigger] placed.books[i]).base_asset
        == start.books[i].base_asset && placed.books[i].quote_asset
        == start.books[i].quote_asset by {}
    lemma_market_index_same_names(placed.books, start.books, market);
    assert(placed.book(market) == rested_book);
    lemma_rested_then_removed(side, own, order);
    lemma_first_with_id(book.bids, id);
    lemma_first_with_id(book.asks, id);
    assert(rested_book.order_with(id) == Some(order));
    // Unlocking gives back what was locked.
    lemma_entry_index(start.ledger, user, asset);
    let k = entry_index(start.ledger, user, asset) as int;
    if need > 0 {
        let locked_entry = EntryView {
            available: (start.ledger[k].available - need) as nat,
            locked: start.ledger[k].locked + need,
            ..start.ledger[k]
        };
        lemma_update_keeps_keys(start.ledger, k, locked_entry);
        assert(entry_index(ticket.locked, user, asset) == k);
        assert(released(ticket.locked, user, asset, need)->0 =~= start.ledger);
    }
    assert(order.remaining() == order.quantity);
    assert(unlock_outcome(ticket.locked, order, market_base(market), market_quote(market)) == Some(
        start.ledger,
    ));
    assert(rested_book.without(side, id) == book);
    assert(end.books =~= start.books);
}

} // verus!
