//! The matching engine: the one writer that owns every order book and the
//! ledger, and applies one command at a time.
//!
//! The engine does no input or output. A command comes in as a value, and
//! what the engine wants told to the outside comes back as values: a reply
//! for the sender, records for the persistence worker, and messages for
//! the market-data streams.

use crate::amount::{amount_of_text, on_step, Amount, MAX_UNITS, UNITS_PER_ONE};
use crate::backing::{
    book_base, book_quote, covered, lemma_cancel_stays_covered, lemma_command_stays_covered,
    lemma_create_stays_covered, lemma_deposit_stays_covered, lemma_empty_books_covered,
    lemma_new_market_stays_covered, lemma_place_stays_covered, supply_in_range,
};
use crate::events::{
    create_db_trades, fill_infos, publish_trades, publish_ws_depth_updates, publish_ws_trades,
    publishes_depth, record_trades, resting_level, send_updated_depth_at, level_text, show_fills,
    touched_levels, update_db_orders, update_orders,
};
use crate::ids::{is_random_name, random_order_id, ORDER_ID_LENGTH};
use crate::ledger::{
    asset_total, can_deposit, credited, ledger_wf, lemma_with_balance_total, lock_outcome,
    settled, unlock_outcome, with_balance, AssetBalance, EntryView, Ledger, LedgerError,
};
use crate::order::{
    fill_views, filled_quantity, fills_wf, order_views, Fill, FillView, Order, OrderSide, OrderView,
};
use crate::orderbook::{
    depth_of, depth_text, lemma_first_with_id, open_orders_of, text_pairs, ticker_of, BookView,
    Orderbook, BASE_CURRENCY,
};
use crate::text::{first_underscore, market_base, market_quote, same_text, split_market};
use crate::types::api::{
    CancelOrderDAta, CreateOrderData, DepthPayload, GetDepthData, GetOpenOrdersData,
    MessageFromApi, MessageToApi, OnRampData, OrderCancelledPayload, OrderPlacedPayload,
};
use crate::types::db::DbMessage;
use crate::types::ws::WsMessage;
use vstd::prelude::*;

verus! {

/// Why an order was not placed.
#[derive(Clone, Copy, Debug, PartialEq, Eq, Structural)]
pub enum OrderError {
    /// Price or quantity is not a positive decimal with at most four
    /// decimal places.
    Malformed,
    /// No book trades the market.
    UnknownMarket,
    /// The book cannot take the order: its id is taken, or a side or the
    /// trade ids are used up.
    Refused,
    /// The user has less available than the order needs.
    InsufficientFunds,
    /// Price times quantity is out of range.
    AmountOutOfRange,
    /// The order traded and its fills could not be settled. The engine
    /// must not go on.
    LedgerInvariantViolation,
}

/// The failure after which the engine must not go on.
#[derive(Clone, Copy, Debug, PartialEq, Eq, Structural)]
pub enum EngineError {
    /// Less was locked than a fill or a cancellation had to take.
    LedgerInvariantViolation,
}

/// An order that was placed: what traded, and what to tell the outside.
#[derive(Debug)]
pub struct Placed {
    pub executed_qty: Amount,
    pub fills: Vec<Fill>,
    pub order_id: String,
    pub db: Vec<DbMessage>,
    pub ws: Vec<WsMessage>,
}

/// A reply and the channel to publish it on.
#[derive(Debug)]
pub struct Reply {
    pub client_id: String,
    pub message: MessageToApi,
}

/// What to tell the outside of one command: the reply, the records for the
/// persistence worker, and the messages for the market-data streams, each
/// list in the order in which to send it.
#[derive(Debug)]
pub struct Outcome {
    pub reply: Option<Reply>,
    pub db: Vec<DbMessage>,
    pub ws: Vec<WsMessage>,
}

/// The engine's state.
#[derive(Debug)]
pub struct Engine {
    pub orderbooks: Vec<Orderbook>,
    pub balances: Ledger,
}

/// The engine's state as plain values.
pub struct EngineView {
    pub books: Seq<BookView>,
    pub ledger: Seq<EntryView>,
}

/// The views of a sequence of books.
pub open spec fn book_views(books: Seq<Orderbook>) -> Seq<BookView> {
    books.map_values(|b: Orderbook| b@)
}

/// The index of the first book that trades `market`, or the number of
/// books where none does.
pub open spec fn market_index(books: Seq<BookView>, market: Seq<char>) -> nat
    decreases books.len(),
{
    if books.len() == 0 || ticker_of(books[0].base_asset, books[0].quote_asset) == market {
        0
    } else {
        1 + market_index(books.skip(1), market)
    }
}

pub proof fn lemma_market_index(books: Seq<BookView>, market: Seq<char>)
    ensures
        market_index(books, market) <= books.len(),
        market_index(books, market) < books.len() ==> ticker_of(
            books[market_index(books, market) as int].base_asset,
            books[market_index(books, market) as int].quote_asset,
        ) == market,
    decreases books.len(),
{
    if books.len() == 0 || ticker_of(books[0].base_asset, books[0].quote_asset) == market {
    } else {
        lemma_market_index(books.skip(1), market);
        let k = market_index(books.skip(1), market);
        if k < books.skip(1).len() {
            assert(books[k as int + 1] == books.skip(1)[k as int]);
        }
    }
}

impl EngineView {
    /// The ledger and every book are well-formed.
    pub open spec fn wf(self) -> bool {
        &&& ledger_wf(self.ledger)
        &&& forall|i: int| 0 <= i < self.books.len() ==> (#[trigger] self.books[i]).wf()
    }

    /// Whether a book trades `market`.
    pub open spec fn trades(self, market: Seq<char>) -> bool {
        market_index(self.books, market) < self.books.len()
    }

    /// The book that trades `market`.
    pub open spec fn book(self, market: Seq<char>) -> BookView {
        self.books[market_index(self.books, market) as int]
    }

    /// The state with `book` in place of the book that trades `market`.
    pub open spec fn with_book(self, market: Seq<char>, book: BookView) -> EngineView {
        EngineView {
            books: self.books.update(market_index(self.books, market) as int, book),
            ..self
        }
    }
}

impl View for Engine {
    type V = EngineView;

    open spec fn view(&self) -> EngineView {
        EngineView { books: book_views(self.orderbooks@), ledger: self.balances@ }
    }
}

/// The side that a word names: `buy` buys, anything else sells.
pub open spec fn side_of_text(word: Seq<char>) -> OrderSide {
    if word == "buy"@ {
        OrderSide::Buy
    } else {
        OrderSide::Sell
    }
}

/// The order that a request makes.
pub open spec fn incoming_order(
    price: nat,
    quantity: nat,
    side: OrderSide,
    user: Seq<char>,
    id: Seq<char>,
) -> OrderView {
    OrderView { price, quantity, order_id: id, filled: 0, side, user_id: user }
}

/// An order that the engine takes: the order, the assets of its market,
/// and the ledger with its funds locked.
pub struct Ticket {
    pub order: OrderView,
    pub base: Seq<char>,
    pub quote: Seq<char>,
    pub locked: Seq<EntryView>,
}

/// Whether the engine takes a request to place an order, and if not, why:
/// price and quantity must be positive amounts on the order step, a book
/// must trade the market and be able to take the order, and the user must
/// have available what the order locks.
pub open spec fn create_plan(
    engine: EngineView,
    market: Seq<char>,
    price_text: Seq<char>,
    quantity_text: Seq<char>,
    side: OrderSide,
    user: Seq<char>,
    id: Seq<char>,
) -> Result<Ticket, OrderError> {
    match (amount_of_text(price_text), amount_of_text(quantity_text)) {
        (Ok(price), Ok(quantity)) => {
            let order = incoming_order(price, quantity, side, user, id);
            if price == 0 || quantity == 0 || !on_step(price) || !on_step(quantity) {
                Err(OrderError::Malformed)
            } else if !engine.trades(market) {
                Err(OrderError::UnknownMarket)
            } else if !engine.book(market).accepts(order) {
                Err(OrderError::Refused)
            } else {
                match lock_outcome(
                    engine.ledger,
                    user,
                    side,
                    market_base(market),
                    market_quote(market),
                    price,
                    quantity,
                ) {
                    Ok(locked) => Ok(
                        Ticket {
                            order,
                            base: market_base(market),
                            quote: market_quote(market),
                            locked,
                        },
                    ),
                    Err(LedgerError::InsufficientFunds) => Err(OrderError::InsufficientFunds),
                    Err(_) => Err(OrderError::AmountOutOfRange),
                }
            }
        },
        _ => Err(OrderError::Malformed),
    }
}

/// Whether `db` and `ws` tell of the order of `ticket` that made `fills`
/// and left the book of its market as `book`: `db` holds a record of each
/// trade and then the updates of the orders, `ws` the depth message and
/// then the trades.
pub open spec fn tells_events(
    db: Seq<DbMessage>,
    ws: Seq<WsMessage>,
    ticket: Ticket,
    fills: Seq<FillView>,
    book: BookView,
    market: Seq<char>,
    timestamp: u64,
) -> bool {
    let order = ticket.order;
    let executed = filled_quantity(fills);
    let rests = executed < order.quantity;
    &&& db.len() == 2 * fills.len() + 1
    &&& record_trades(db.take(fills.len() as int), fills, order.side, market, timestamp)
    &&& update_orders(db.skip(fills.len() as int), order, executed, fills, market)
    &&& ws.len() == fills.len() + 1
    &&& publishes_depth(
        ws[0],
        market,
        match order.side {
            OrderSide::Buy => resting_level(book.bids, order.price, rests),
            OrderSide::Sell => touched_levels(book.bids, fills),
        },
        match order.side {
            OrderSide::Buy => touched_levels(book.asks, fills),
            OrderSide::Sell => resting_level(book.asks, order.price, rests),
        },
    )
    &&& publish_trades(ws.skip(1), fills, order.user_id, market)
}

/// Whether `placed` tells of the order of `ticket` that made `fills` and
/// left the book of its market as `book`: the id, the fills and their
/// quantity, and the events.
pub open spec fn tells_placed(
    placed: Placed,
    ticket: Ticket,
    fills: Seq<FillView>,
    book: BookView,
    market: Seq<char>,
    timestamp: u64,
) -> bool {
    &&& placed.order_id@ == ticket.order.order_id
    &&& placed.executed_qty@ == filled_quantity(fills)
    &&& fill_views(placed.fills@) == fills
    &&& fills_wf(placed.fills@)
    &&& tells_events(placed.db@, placed.ws@, ticket, fills, book, market, timestamp)
}

/// What placing an order does to the state: a request that the engine
/// does not take changes nothing; an order that it takes is matched in the
/// book of its market, and its fills are settled on the ledger with the
/// order's funds locked, or, where they cannot be settled, the ledger
/// keeps the funds locked.
pub open spec fn places(
    before: EngineView,
    after: EngineView,
    market: Seq<char>,
    price_text: Seq<char>,
    quantity_text: Seq<char>,
    side: OrderSide,
    user: Seq<char>,
    id: Seq<char>,
) -> bool {
    match create_plan(before, market, price_text, quantity_text, side, user, id) {
        Err(_) => after == before,
        Ok(ticket) => {
            let book = before.book(market).after_add(ticket.order);
            let fills = before.book(market).fills_for(ticket.order);
            &&& after.books == before.with_book(market, book).books
            &&& after.ledger == match settled(
                ticket.locked,
                user,
                side,
                ticket.base,
                ticket.quote,
                fills,
            ) {
                Some(ledger) => ledger,
                None => ticket.locked,
            }
        },
    }
}

/// Whether the fills of the order that a request places cannot be settled.
pub open spec fn cannot_settle(
    before: EngineView,
    market: Seq<char>,
    price_text: Seq<char>,
    quantity_text: Seq<char>,
    side: OrderSide,
    user: Seq<char>,
    id: Seq<char>,
) -> bool {
    create_plan(before, market, price_text, quantity_text, side, user, id) matches Ok(ticket)
        && settled(
        ticket.locked,
        user,
        side,
        ticket.base,
        ticket.quote,
        before.book(market).fills_for(ticket.order),
    ) is None
}

/// What placing an order does, for the engine before and after and the
/// result: a request that the engine does not take changes nothing and
/// gives the reason; an order that it takes is matched in the book of its
/// market, and its fills are settled on the ledger with the order's funds
/// locked. Where the fills cannot be settled, the ledger keeps the funds
/// locked and the result is the fatal error.
pub open spec fn creates_order(
    before: EngineView,
    after: EngineView,
    market: Seq<char>,
    price_text: Seq<char>,
    quantity_text: Seq<char>,
    side: OrderSide,
    user: Seq<char>,
    id: Seq<char>,
    timestamp: u64,
    result: Result<Placed, OrderError>,
) -> bool {
    match create_plan(before, market, price_text, quantity_text, side, user, id) {
        Err(reason) => after == before && (result matches Err(e) && e == reason),
        Ok(ticket) => {
            let book = before.book(market).after_add(ticket.order);
            let fills = before.book(market).fills_for(ticket.order);
            &&& after.books == before.with_book(market, book).books
            &&& match settled(ticket.locked, user, side, ticket.base, ticket.quote, fills) {
                Some(ledger) => after.ledger == ledger && (result matches Ok(placed)
                    && tells_placed(placed, ticket, fills, book, market, timestamp)),
                None => after.ledger == ticket.locked && (result matches Err(e) && e
                    == OrderError::LedgerInvariantViolation),
            }
        },
    }
}

/// Whether `outcome` is silent: no reply and no events.
pub open spec fn tells_nothing(outcome: Outcome) -> bool {
    outcome.reply is None && outcome.db@.len() == 0 && outcome.ws@.len() == 0
}

/// Whether `message` says that the order `order_id` was cancelled, with
/// nothing executed and nothing remaining.
pub open spec fn says_cancelled(message: MessageToApi, order_id: Seq<char>) -> bool {
    message matches MessageToApi::OrderCancelled { payload } && {
        &&& payload.order_id@ == order_id
        &&& payload.executed_qty@ == 0
        &&& payload.remaining_qty@ == 0
    }
}

/// Whether `outcome` replies to `client` that the order `order_id` was
/// cancelled, and holds no records.
pub open spec fn replies_cancelled(outcome: Outcome, client: Seq<char>, order_id: Seq<char>) -> bool {
    &&& outcome.reply matches Some(reply) && reply.client_id@ == client && says_cancelled(
        reply.message,
        order_id,
    )
    &&& outcome.db@.len() == 0
}

/// Whether `message` says that the order of `ticket` was placed and made
/// `fills`.
pub open spec fn says_placed(message: MessageToApi, order: OrderView, fills: Seq<FillView>) -> bool {
    message matches MessageToApi::OrderPlaced { payload } && {
        &&& payload.order_id@ == order.order_id
        &&& payload.executed_qty@ == filled_quantity(fills)
        &&& show_fills(payload.fills@, fills)
    }
}

/// What a request to place an order does, for the engine before and after
/// and the result. A request that the engine does not take changes nothing
/// and is answered as a cancellation without an order id. An order that it
/// takes is matched and settled, and answered with its id and its fills;
/// where its fills cannot be settled the result is the fatal error.
pub open spec fn handles_create(
    before: EngineView,
    after: EngineView,
    data: CreateOrderData,
    client: Seq<char>,
    id: Seq<char>,
    timestamp: u64,
    result: Result<Outcome, EngineError>,
) -> bool {
    let side = side_of_text(data.side@);
    match create_plan(before, data.market@, data.price@, data.quantity@, side, data.user_id@, id) {
        Err(_) => after == before && (result matches Ok(outcome) && replies_cancelled(
            outcome,
            client,
            Seq::empty(),
        ) && outcome.ws@.len() == 0),
        Ok(ticket) => {
            let book = before.book(data.market@).after_add(ticket.order);
            let fills = before.book(data.market@).fills_for(ticket.order);
            &&& after.books == before.with_book(data.market@, book).books
            &&& match settled(ticket.locked, data.user_id@, side, ticket.base, ticket.quote, fills) {
                Some(ledger) => after.ledger == ledger && (result matches Ok(outcome) && {
                    &&& outcome.reply matches Some(reply) && reply.client_id@ == client
                        && says_placed(reply.message, ticket.order, fills)
                    &&& tells_events(
                        outcome.db@,
                        outcome.ws@,
                        ticket,
                        fills,
                        book,
                        data.market@,
                        timestamp,
                    )
                }),
                None => after.ledger == ticket.locked && result is Err,
            }
        },
    }
}

/// What a request to cancel an order does. Where no book trades the
/// market, nothing changes and the reply is a cancellation without an
/// order id. Where no order with the id rests in the book, nothing changes
/// and the reply names the id. Otherwise the order's funds are unlocked,
/// the order leaves the book, the depth at its price is published, and the
/// reply names the id; where less is locked than the order holds, nothing
/// changes and the result is the fatal error.
pub open spec fn handles_cancel(
    before: EngineView,
    after: EngineView,
    data: CancelOrderDAta,
    client: Seq<char>,
    result: Result<Outcome, EngineError>,
) -> bool {
    if !before.trades(data.market@) {
        after == before && (result matches Ok(outcome) && replies_cancelled(
            outcome,
            client,
            Seq::empty(),
        ) && outcome.ws@.len() == 0)
    } else {
        let book = before.book(data.market@);
        match book.order_with(data.order_id@) {
            None => after == before && (result matches Ok(outcome) && replies_cancelled(
                outcome,
                client,
                data.order_id@,
            ) && outcome.ws@.len() == 0),
            Some(order) => match unlock_outcome(
                before.ledger,
                order,
                market_base(data.market@),
                market_quote(data.market@),
            ) {
                None => after == before && result is Err,
                Some(ledger) => {
                    let left = book.without(order.side, data.order_id@);
                    &&& after.ledger == ledger
                    &&& after.books == before.with_book(data.market@, left).books
                    &&& result matches Ok(outcome) && {
                        &&& replies_cancelled(outcome, client, data.order_id@)
                        &&& outcome.ws@.len() == 1
                        &&& publishes_depth(
                            outcome.ws@[0],
                            data.market@,
                            seq![level_text(left.bids, order.price)],
                            seq![level_text(left.asks, order.price)],
                        )
                    }
                },
            },
        }
    }
}

/// Whether `outcome` replies to `client` with the depth of the book that
/// trades `market`, or with no levels where no book does, and holds no
/// events.
pub open spec fn tells_depth(
    engine: EngineView,
    market: Seq<char>,
    client: Seq<char>,
    outcome: Outcome,
) -> bool {
    &&& outcome.db@.len() == 0
    &&& outcome.ws@.len() == 0
    &&& outcome.reply matches Some(reply) && reply.client_id@ == client && (
    reply.message matches MessageToApi::Depth { payload } && {
        &&& text_pairs(payload.bids@) == if engine.trades(market) {
            depth_text(depth_of(engine.book(market).bids))
        } else {
            Seq::empty()
        }
        &&& text_pairs(payload.asks@) == if engine.trades(market) {
            depth_text(depth_of(engine.book(market).asks))
        } else {
            Seq::empty()
        }
    })
}

/// Whether `outcome` replies to `client` with the resting orders of `user`
/// in the book that trades `market`, or with none where no book does, and
/// holds no events.
pub open spec fn tells_open_orders(
    engine: EngineView,
    market: Seq<char>,
    user: Seq<char>,
    client: Seq<char>,
    outcome: Outcome,
) -> bool {
    &&& outcome.db@.len() == 0
    &&& outcome.ws@.len() == 0
    &&& outcome.reply matches Some(reply) && reply.client_id@ == client && (
    reply.message matches MessageToApi::OpenOrders { payload } && order_views(payload@) == if engine.trades(
        market,
    ) {
        open_orders_of(engine.book(market), user)
    } else {
        Seq::empty()
    })
}

/// The ledger after a deposit of the base currency: the amount is credited
/// where the text is an amount and all that the ledger holds of the base
/// currency stays within range, and nothing changes otherwise.
pub open spec fn ramped(ledger: Seq<EntryView>, user: Seq<char>, amount_text: Seq<char>) -> Seq<
    EntryView,
> {
    match amount_of_text(amount_text) {
        Ok(amount) => if can_deposit(ledger, BASE_CURRENCY@, amount) {
            credited(ledger, user, BASE_CURRENCY@, amount)
        } else {
            ledger
        },
        Err(_) => ledger,
    }
}

/// What applying a command does, for the engine before and after and the
/// result, where an order that the command places gets the id `id`.
pub open spec fn applies(
    before: EngineView,
    after: EngineView,
    message: MessageFromApi,
    id: Seq<char>,
    timestamp: u64,
    result: Result<Outcome, EngineError>,
) -> bool {
    match message {
        MessageFromApi::CreateOrder { data, client_id } => handles_create(
            before,
            after,
            data,
            client_id@,
            id,
            timestamp,
            result,
        ),
        MessageFromApi::CancelOrder { data, client_id } => handles_cancel(
            before,
            after,
            data,
            client_id@,
            result,
        ),
        MessageFromApi::GetOpenOrders { data, client_id } => after == before && (
        result matches Ok(outcome) && tells_open_orders(
            before,
            data.market@,
            data.user_id@,
            client_id@,
            outcome,
        )),
        MessageFromApi::OnRame { data, client_id } => {
            &&& after.books == before.books
            &&& after.ledger == ramped(before.ledger, data.user_id@, data.amount@)
            &&& result matches Ok(outcome) && tells_nothing(outcome)
        },
        MessageFromApi::GetDepth { data, client_id } => after == before && (
        result matches Ok(outcome) && tells_depth(before, data.market@, client_id@, outcome)),
    }
}

/// Whether the command is a deposit.
pub open spec fn is_deposit(message: MessageFromApi) -> bool {
    message is OnRame
}

/// Whole units of each asset that a demo user starts with.
pub const SEED_BALANCE: u64 = 10_000_000;

/// The ledger with the starting balance of `user` in the base currency and
/// in `TATA`.
pub open spec fn seeded_user(ledger: Seq<EntryView>, user: Seq<char>) -> Seq<EntryView> {
    with_balance(
        with_balance(ledger, user, BASE_CURRENCY@, (SEED_BALANCE * UNITS_PER_ONE) as nat, 0),
        user,
        "TATA"@,
        (SEED_BALANCE * UNITS_PER_ONE) as nat,
        0,
    )
}

/// The ledger with the starting balances of the demo users `1`, `2` and
/// `3`.
pub open spec fn seeded(ledger: Seq<EntryView>) -> Seq<EntryView> {
    seeded_user(seeded_user(seeded_user(ledger, "1"@), "2"@), "3"@)
}

/// The market `TATA_INR` trades `TATA` against `INR`.
#[verifier::rlimit(50)]
pub proof fn lemma_start_market()
    ensures
        ticker_of("TATA"@, BASE_CURRENCY@) == "TATA_INR"@,
        market_base("TATA_INR"@) == "TATA"@,
        market_quote("TATA_INR"@) == "INR"@,
        "TATA"@ != "INR"@,
{
    reveal_strlit("TATA");
    reveal_strlit("INR");
    reveal_strlit("TATA_INR");
    let name = "TATA_INR"@;
    assert(ticker_of("TATA"@, "INR"@) =~= name);
    reveal_with_fuel(first_underscore, 6);
    assert(name.skip(1).skip(1) =~= name.skip(2));
    assert(name.skip(2).skip(1) =~= name.skip(3));
    assert(name.skip(3).skip(1) =~= name.skip(4));
    assert(first_underscore(name.skip(4)) == 0);
    assert(first_underscore(name.skip(3)) == 1);
    assert(first_underscore(name.skip(2)) == 2);
    assert(first_underscore(name.skip(1)) == 3);
    assert(first_underscore(name) == 4);
    assert(name.take(4) =~= "TATA"@);
    let rest = name.skip(5);
    assert(rest.skip(1).skip(1) =~= rest.skip(2));
    assert(rest.skip(2).skip(1) =~= rest.skip(3));
    assert(rest.skip(3) =~= Seq::<char>::empty());
    assert(first_underscore(rest.skip(3)) == 0);
    assert(first_underscore(rest.skip(2)) == 1);
    assert(first_underscore(rest.skip(1)) == 2);
    assert(first_underscore(rest) == 3);
    assert(rest.take(3) =~= "INR"@);
    assert("TATA"@[0] != "INR"@[0]);
}

/// The starting balances keep every asset's total within range.
pub proof fn lemma_seeded_in_range()
    ensures
        supply_in_range(seeded(Seq::<EntryView>::empty())),
{
    let amount = (SEED_BALANCE * UNITS_PER_ONE) as nat;
    let none = Seq::<EntryView>::empty();
    assert forall|a: Seq<char>| #[trigger] asset_total(seeded(none), a) <= MAX_UNITS by {
        let s1 = with_balance(none, "1"@, BASE_CURRENCY@, amount, 0);
        let s2 = with_balance(s1, "1"@, "TATA"@, amount, 0);
        let s3 = with_balance(s2, "2"@, BASE_CURRENCY@, amount, 0);
        let s4 = with_balance(s3, "2"@, "TATA"@, amount, 0);
        let s5 = with_balance(s4, "3"@, BASE_CURRENCY@, amount, 0);
        let s6 = with_balance(s5, "3"@, "TATA"@, amount, 0);
        lemma_with_balance_total(none, "1"@, BASE_CURRENCY@, amount, 0, a);
        lemma_with_balance_total(s1, "1"@, "TATA"@, amount, 0, a);
        lemma_with_balance_total(s2, "2"@, BASE_CURRENCY@, amount, 0, a);
        lemma_with_balance_total(s3, "2"@, "TATA"@, amount, 0, a);
        lemma_with_balance_total(s4, "3"@, BASE_CURRENCY@, amount, 0, a);
        lemma_with_balance_total(s5, "3"@, "TATA"@, amount, 0, a);
        assert(seeded(none) == s6);
    }
}

/// The total of every asset is the same in both ledgers.
pub open spec fn same_totals(a: Seq<EntryView>, b: Seq<EntryView>) -> bool {
    forall|asset: Seq<char>| #[trigger] asset_total(a, asset) == asset_total(b, asset)
}

/// Whether the market that a book trades has a base asset and a quote
/// asset that differ, as its name gives them.
pub fn trades_two_assets(book: &Orderbook) -> (ok: bool)
    ensures
        ok == (book_base(book@) != book_quote(book@)),
{
    let name = book.ticker();
    let (base, quote) = split_market(name.as_str());
    !(base == quote)
}

/// The side that a word names.
pub fn parse_side(word: &str) -> (side: OrderSide)
    ensures
        side == side_of_text(word@),
{
    if same_text(word, "buy") {
        OrderSide::Buy
    } else {
        OrderSide::Sell
    }
}

/// The outcome that tells `client_id` of a cancellation of `order_id`.
fn cancelled_outcome(client_id: &str, order_id: String, ws: Vec<WsMessage>) -> (outcome: Outcome)
    ensures
        replies_cancelled(outcome, client_id@, order_id@),
        outcome.ws == ws,
{
    let message = MessageToApi::OrderCancelled {
        payload: OrderCancelledPayload {
            order_id,
            executed_qty: Amount::zero(),
            remaining_qty: Amount::zero(),
        },
    };
    Outcome {
        reply: Some(Reply { client_id: client_id.to_string(), message }),
        db: Vec::new(),
        ws,
    }
}

impl Engine {
    /// Whether the engine's state is well-formed.
    pub open spec fn wf(&self) -> bool {
        self@.wf()
    }

    /// Whether the engine's state is well-formed, checked on the state as
    /// it stands.
    pub fn is_well_formed(&self) -> (ok: bool)
        ensures
            ok == self.wf(),
    {
        if !self.balances.is_well_formed() {
            return false;
        }
        let mut i: usize = 0;
        while i < self.orderbooks.len()
            invariant
                i <= self.orderbooks.len(),
                forall|j: int| 0 <= j < i ==> (#[trigger] self@.books[j]).wf(),
            decreases self.orderbooks.len() - i,
        {
            assert(self@.books[i as int] == self.orderbooks@[i as int]@);
            if !self.orderbooks[i].is_well_formed() {
                return false;
            }
            i = i + 1;
        }
        true
    }

    /// The engine as it starts: the market of `TATA` against the base
    /// currency, without orders, and the demo users with their starting
    /// balances. The state is covered, so that from here on no command can
    /// end in the failure after which the engine must not go on.
    pub fn start() -> (engine: Self)
        ensures
            engine.wf(),
            covered(engine@),
            engine@.ledger == seeded(Seq::<EntryView>::empty()),
            engine@.books.len() == 1,
            engine@.books[0].bids.len() == 0,
            engine@.books[0].asks.len() == 0,
            engine@.books[0].last_trade_id == 0,
            ticker_of(engine@.books[0].base_asset, engine@.books[0].quote_asset) == "TATA_INR"@,
    {
        let mut engine = Engine::new();
        let book = Orderbook::new("TATA".to_string(), Vec::new(), Vec::new(), 0, Amount::zero());
        proof {
            assert(book@.bids =~= Seq::<OrderView>::empty());
            assert(book@.asks =~= Seq::<OrderView>::empty());
        }
        engine.add_orderbook(book);
        engine.set_base_balances();
        proof {
            lemma_start_market();
            lemma_seeded_in_range();
            assert(engine@.books[0] == book@);
            lemma_empty_books_covered(engine@);
        }
        engine
    }

    /// An engine without markets and without balances.
    pub fn new() -> (engine: Self)
        ensures
            engine@.books == Seq::<BookView>::empty(),
            engine@.ledger == Seq::<EntryView>::empty(),
            engine.wf(),
    {
        let engine = Engine { orderbooks: Vec::new(), balances: Ledger::new() };
        assert(engine@.books =~= Seq::<BookView>::empty());
        engine
    }

    /// Adds a market, behind those that the engine has.
    pub fn add_orderbook(&mut self, book: Orderbook)
        requires
            old(self).wf(),
            book@.wf(),
        ensures
            final(self)@.books == old(self)@.books.push(book@),
            final(self)@.ledger == old(self)@.ledger,
            final(self).wf(),
            covered(old(self)@) && book@.bids.len() == 0 && book@.asks.len() == 0 && book_base(
                book@,
            ) != book_quote(book@) ==> covered(final(self)@),
    {
        let ghost before = self@.books;
        let ghost added = book@;
        self.orderbooks.push(book);
        assert(self@.books =~= before.push(added));
        proof {
            if covered(old(self)@) && added.bids.len() == 0 && added.asks.len() == 0 && book_base(
                added,
            ) != book_quote(added) {
                lemma_new_market_stays_covered(old(self)@, self@, added);
            }
        }
    }

    /// The index of the book that trades `market`.
    pub fn find_market(&self, market: &str) -> (found: Option<usize>)
        ensures
            match found {
                Some(k) => k < self.orderbooks.len() && k == market_index(self@.books, market@),
                None => !self@.trades(market@),
            },
    {
        let ghost books = self@.books;
        let name = market.to_string();
        let mut k: usize = 0;
        assert(books.skip(0) =~= books);
        while k < self.orderbooks.len()
            invariant
                k <= self.orderbooks.len(),
                books == self@.books,
                name@ == market@,
                market_index(books, market@) == k + market_index(books.skip(k as int), market@),
            decreases self.orderbooks.len() - k,
        {
            assert(books.skip(k as int)[0] == self.orderbooks@[k as int]@);
            if self.orderbooks[k].ticker() == name {
                return Some(k);
            }
            assert(books.skip(k as int).skip(1) =~= books.skip(k + 1));
            k = k + 1;
        }
        None
    }

    /// Places an order under the id `order_id`: locks its funds, matches
    /// it in the book of its market, and settles its fills.
    #[verifier::rlimit(50)]
    pub fn create_order_with_id(
        &mut self,
        market: &str,
        price_str: &str,
        quantity_str: &str,
        side: OrderSide,
        user_id: &str,
        order_id: String,
        timestamp: u64,
    ) -> (result: Result<Placed, OrderError>)
        requires
            old(self).wf(),
        ensures
            creates_order(
                old(self)@,
                final(self)@,
                market@,
                price_str@,
                quantity_str@,
                side,
                user_id@,
                order_id@,
                timestamp,
                result,
            ),
            final(self).wf(),
            same_totals(final(self)@.ledger, old(self)@.ledger),
            covered(old(self)@) ==> covered(final(self)@) && !(result matches Err(e) && e
                == OrderError::LedgerInvariantViolation),
    {
        let ghost id = order_id@;
        let result = self.place_order(
            market,
            price_str,
            quantity_str,
            side,
            user_id,
            order_id,
            timestamp,
        );
        proof {
            if covered(old(self)@) {
                lemma_place_stays_covered(
                    old(self)@,
                    self@,
                    market@,
                    price_str@,
                    quantity_str@,
                    side,
                    user_id@,
                    id,
                );
            }
        }
        result
    }

    /// Locks the funds of an order, matches it and settles its fills.
    #[verifier::rlimit(50)]
    fn place_order(
        &mut self,
        market: &str,
        price_str: &str,
        quantity_str: &str,
        side: OrderSide,
        user_id: &str,
        order_id: String,
        timestamp: u64,
    ) -> (result: Result<Placed, OrderError>)
        requires
            old(self).wf(),
        ensures
            creates_order(
                old(self)@,
                final(self)@,
                market@,
                price_str@,
                quantity_str@,
                side,
                user_id@,
                order_id@,
                timestamp,
                result,
            ),
            final(self).wf(),
            same_totals(final(self)@.ledger, old(self)@.ledger),
    {
        let ghost before = self@;
        let price = match Amount::parse(price_str) {
            Ok(p) => p,
            Err(_) => {
                return Err(OrderError::Malformed);
            },
        };
        let quantity = match Amount::parse(quantity_str) {
            Ok(q) => q,
            Err(_) => {
                return Err(OrderError::Malformed);
            },
        };
        if price.units == 0 || quantity.units == 0 || !price.is_on_step() || !quantity.is_on_step() {
            return Err(OrderError::Malformed);
        }
        let k = match self.find_market(market) {
            Some(k) => k,
            None => {
                return Err(OrderError::UnknownMarket);
            },
        };
        let order = Order {
            price,
            quantity,
            order_id: order_id.clone(),
            filled: Amount::zero(),
            side,
            user_id: user_id.to_string(),
        };
        assert(order@ == incoming_order(price@, quantity@, side, user_id@, order_id@));
        assert(before.books[k as int] == self.orderbooks@[k as int]@);
        if !self.orderbooks[k].accepts(&order) {
            return Err(OrderError::Refused);
        }
        let (base, quote) = split_market(market);
        match self.balances.lock_for_order(
            user_id,
            side,
            base.as_str(),
            quote.as_str(),
            price,
            quantity,
        ) {
            Ok(()) => {},
            Err(LedgerError::InsufficientFunds) => {
                return Err(OrderError::InsufficientFunds);
            },
            Err(_) => {
                return Err(OrderError::AmountOutOfRange);
            },
        }
        let ghost ticket = Ticket { order: order@, base: base@, quote: quote@, locked: self.balances@ };
        assert(create_plan(
            before,
            market@,
            price_str@,
            quantity_str@,
            side,
            user_id@,
            order_id@,
        ) == Ok::<Ticket, OrderError>(ticket));
        let taker = order.clone();
        let matched = self.orderbooks[k].add_order(order);
        proof {
            assert(self@.books =~= before.with_book(
                market@,
                before.book(market@).after_add(ticket.order),
            ).books);
            assert forall|i: int| 0 <= i < self@.books.len() implies (#[trigger] self@.books[i]).wf() by {
                if i != k {
                    assert(self@.books[i] == before.books[i]);
                }
            }
        }
        match self.balances.settle_fills(
            user_id,
            side,
            base.as_str(),
            quote.as_str(),
            &matched.fills,
        ) {
            Ok(()) => {},
            Err(_) => {
                return Err(OrderError::LedgerInvariantViolation);
            },
        }
        let rests = matched.executed_qty.units < quantity.units;
        let mut db = create_db_trades(&matched.fills, side, market, timestamp);
        let mut updates = update_db_orders(&taker, matched.executed_qty, &matched.fills, market);
        let ghost trades = db@;
        let ghost orders = updates@;
        db.append(&mut updates);
        let mut ws: Vec<WsMessage> = Vec::new();
        ws.push(
            publish_ws_depth_updates(
                &self.orderbooks[k],
                &matched.fills,
                price,
                side,
                rests,
                market,
            ),
        );
        let mut trade_messages = publish_ws_trades(&matched.fills, user_id, market);
        let ghost published = trade_messages@;
        ws.append(&mut trade_messages);
        proof {
            assert(db@.take(matched.fills.len() as int) =~= trades);
            assert(db@.skip(matched.fills.len() as int) =~= orders);
            assert(ws@.skip(1) =~= published);
            assert(self.orderbooks@[k as int]@ == before.book(market@).after_add(ticket.order));
        }
        Ok(Placed { executed_qty: matched.executed_qty, fills: matched.fills, order_id, db, ws })
    }
    /// Places an order under a fresh random id.
    pub fn create_order(
        &mut self,
        market: &str,
        price_str: &str,
        quantity_str: &str,
        side: OrderSide,
        user_id: &str,
        timestamp: u64,
    ) -> (result: Result<Placed, OrderError>)
        requires
            old(self).wf(),
        ensures
            exists|id: Seq<char>|
                is_random_name(id, ORDER_ID_LENGTH as nat) && #[trigger] creates_order(
                    old(self)@,
                    final(self)@,
                    market@,
                    price_str@,
                    quantity_str@,
                    side,
                    user_id@,
                    id,
                    timestamp,
                    result,
                ),
            final(self).wf(),
            same_totals(final(self)@.ledger, old(self)@.ledger),
            covered(old(self)@) ==> covered(final(self)@) && !(result matches Err(e) && e
                == OrderError::LedgerInvariantViolation),
    {
        let order_id = random_order_id();
        self.create_order_with_id(
            market,
            price_str,
            quantity_str,
            side,
            user_id,
            order_id,
            timestamp,
        )
    }

    /// Applies a request to place an order, which gets the id `order_id`.
    #[verifier::rlimit(50)]
    pub fn handle_create_order(
        &mut self,
        data: CreateOrderData,
        client_id: &str,
        order_id: String,
        timestamp: u64,
    ) -> (result: Result<Outcome, EngineError>)
        requires
            old(self).wf(),
        ensures
            handles_create(
                old(self)@,
                final(self)@,
                data,
                client_id@,
                order_id@,
                timestamp,
                result,
            ),
            final(self).wf(),
            same_totals(final(self)@.ledger, old(self)@.ledger),
            covered(old(self)@) ==> result is Ok && covered(final(self)@),
    {
        let ghost request = data;
        let side = parse_side(data.side.as_str());
        let ghost id = order_id@;
        let created = self.create_order_with_id(
            data.market.as_str(),
            data.price.as_str(),
            data.quantity.as_str(),
            side,
            data.user_id.as_str(),
            order_id,
            timestamp,
        );
        let result = match created {
            Ok(placed) => {
                let message = MessageToApi::OrderPlaced {
                    payload: OrderPlacedPayload {
                        order_id: placed.order_id,
                        executed_qty: placed.executed_qty,
                        fills: fill_infos(&placed.fills),
                    },
                };
                Ok(
                    Outcome {
                        reply: Some(Reply { client_id: client_id.to_string(), message }),
                        db: placed.db,
                        ws: placed.ws,
                    },
                )
            },
            Err(OrderError::LedgerInvariantViolation) => Err(EngineError::LedgerInvariantViolation),
            Err(_) => Ok(cancelled_outcome(client_id, String::new(), Vec::new())),
        };
        proof {
            if covered(old(self)@) {
                lemma_create_stays_covered(
                    old(self)@,
                    self@,
                    request,
                    client_id@,
                    id,
                    timestamp,
                    result,
                );
            }
        }
        result
    }

    /// Applies a request to cancel an order.
    pub fn handle_cancel_order(&mut self, data: CancelOrderDAta, client_id: &str) -> (result: Result<
        Outcome,
        EngineError,
    >)
        requires
            old(self).wf(),
        ensures
            handles_cancel(old(self)@, final(self)@, data, client_id@, result),
            final(self).wf(),
            same_totals(final(self)@.ledger, old(self)@.ledger),
            covered(old(self)@) ==> result is Ok && covered(final(self)@),
    {
        let ghost request = data;
        let result = self.cancel_order(data, client_id);
        proof {
            if covered(old(self)@) {
                lemma_cancel_stays_covered(old(self)@, self@, request, client_id@, result);
            }
        }
        result
    }

    /// Cancels an order: unlocks its funds and takes it out of its book.
    #[verifier::rlimit(50)]
    fn cancel_order(&mut self, data: CancelOrderDAta, client_id: &str) -> (result: Result<
        Outcome,
        EngineError,
    >)
        requires
            old(self).wf(),
        ensures
            handles_cancel(old(self)@, final(self)@, data, client_id@, result),
            final(self).wf(),
            same_totals(final(self)@.ledger, old(self)@.ledger),
    {
        let ghost before = self@;
        let k = match self.find_market(data.market.as_str()) {
            Some(k) => k,
            None => {
                return Ok(cancelled_outcome(client_id, String::new(), Vec::new()));
            },
        };
        assert(before.books[k as int] == self.orderbooks@[k as int]@);
        let order = match self.orderbooks[k].find_order(&data.order_id) {
            Some(order) => order,
            None => {
                return Ok(cancelled_outcome(client_id, data.order_id, Vec::new()));
            },
        };
        proof {
            let book = before.books[k as int];
            lemma_first_with_id(book.bids, data.order_id@);
            lemma_first_with_id(book.asks, data.order_id@);
            assert(book.wf());
        }
        let (base, quote) = split_market(data.market.as_str());
        match self.balances.unlock_on_cancel(&order, base.as_str(), quote.as_str()) {
            Ok(()) => {},
            Err(_) => {
                return Err(EngineError::LedgerInvariantViolation);
            },
        }
        match order.side {
            OrderSide::Buy => {
                self.orderbooks[k].cancel_bid(&order);
            },
            OrderSide::Sell => {
                self.orderbooks[k].cancel_ask(&order);
            },
        }
        proof {
            let left = before.book(data.market@).without(order@.side, data.order_id@);
            assert(self@.books =~= before.with_book(data.market@, left).books);
            assert forall|i: int| 0 <= i < self@.books.len() implies (#[trigger] self@.books[i]).wf() by {
                if i != k {
                    assert(self@.books[i] == before.books[i]);
                }
            }
        }
        let mut ws: Vec<WsMessage> = Vec::new();
        ws.push(send_updated_depth_at(&self.orderbooks[k], order.price, data.market.as_str()));
        Ok(cancelled_outcome(client_id, data.order_id, ws))
    }

    /// Answers a request for the depth of a market.
    pub fn handle_get_depth(&self, data: GetDepthData, client_id: &str) -> (outcome: Outcome)
        requires
            self.wf(),
        ensures
            tells_depth(self@, data.market@, client_id@, outcome),
    {
        let (bids, asks) = match self.find_market(data.market.as_str()) {
            Some(k) => {
                assert(self@.books[k as int] == self.orderbooks@[k as int]@);
                self.orderbooks[k].get_depth()
            },
            None => {
                let bids: Vec<(String, String)> = Vec::new();
                let asks: Vec<(String, String)> = Vec::new();
                assert(text_pairs(bids@) =~= Seq::<(Seq<char>, Seq<char>)>::empty());
                (bids, asks)
            },
        };
        let message = MessageToApi::Depth { payload: DepthPayload { bids, asks } };
        Outcome {
            reply: Some(Reply { client_id: client_id.to_string(), message }),
            db: Vec::new(),
            ws: Vec::new(),
        }
    }

    /// Answers a request for a user's resting orders in a market.
    pub fn handle_get_open_orders(&self, data: GetOpenOrdersData, client_id: &str) -> (outcome: Outcome)
        ensures
            tells_open_orders(self@, data.market@, data.user_id@, client_id@, outcome),
    {
        let orders = match self.find_market(data.market.as_str()) {
            Some(k) => {
                assert(self@.books[k as int] == self.orderbooks@[k as int]@);
                self.orderbooks[k].get_open_orders(data.user_id.as_str())
            },
            None => {
                let orders: Vec<Order> = Vec::new();
                assert(order_views(orders@) =~= Seq::<OrderView>::empty());
                orders
            },
        };
        let message = MessageToApi::OpenOrders { payload: orders };
        Outcome {
            reply: Some(Reply { client_id: client_id.to_string(), message }),
            db: Vec::new(),
            ws: Vec::new(),
        }
    }

    /// Credits `amount` of the base currency to what `user_id` has
    /// available. Where all that the ledger holds of the base currency
    /// would leave the range, nothing changes.
    pub fn on_ramp(&mut self, user_id: &str, amount: Amount) -> (result: Result<(), LedgerError>)
        requires
            old(self).wf(),
            amount.wf(),
        ensures
            final(self)@.books == old(self)@.books,
            result is Ok <==> can_deposit(old(self)@.ledger, BASE_CURRENCY@, amount@),
            final(self)@.ledger == (if result is Ok {
                credited(old(self)@.ledger, user_id@, BASE_CURRENCY@, amount@)
            } else {
                old(self)@.ledger
            }),
            final(self).wf(),
            covered(old(self)@) ==> covered(final(self)@),
    {
        let result = self.balances.on_ramp(user_id, amount);
        assert(self@.books == old(self)@.books);
        proof {
            if covered(old(self)@) && result is Ok {
                lemma_deposit_stays_covered(
                    old(self)@,
                    self@,
                    user_id@,
                    BASE_CURRENCY@,
                    amount@,
                );
            }
        }
        result
    }

    /// Applies a deposit: credits the amount where the text is an amount
    /// and all that the ledger holds of the base currency stays within
    /// range.
    pub fn handle_on_ramp(&mut self, data: OnRampData) -> (outcome: Outcome)
        requires
            old(self).wf(),
        ensures
            final(self)@.books == old(self)@.books,
            final(self)@.ledger == ramped(old(self)@.ledger, data.user_id@, data.amount@),
            tells_nothing(outcome),
            final(self).wf(),
            covered(old(self)@) ==> covered(final(self)@),
    {
        match Amount::parse(data.amount.as_str()) {
            Ok(amount) => {
                let _ = self.on_ramp(data.user_id.as_str(), amount);
            },
            Err(_) => {},
        }
        Outcome { reply: None, db: Vec::new(), ws: Vec::new() }
    }

    /// Gives each of the demo users `1`, `2` and `3` ten million of the base
    /// currency and of `TATA`, all of it available.
    pub fn set_base_balances(&mut self)
        requires
            old(self).wf(),
        ensures
            final(self)@.books == old(self)@.books,
            final(self)@.ledger == seeded(old(self)@.ledger),
            final(self).wf(),
    {
        self.seed_user("1");
        self.seed_user("2");
        self.seed_user("3");
    }

    /// Gives `user_id` the starting balance in the base currency and in
    /// `TATA`.
    fn seed_user(&mut self, user_id: &str)
        requires
            old(self).wf(),
        ensures
            final(self)@.books == old(self)@.books,
            final(self)@.ledger == seeded_user(old(self)@.ledger, user_id@),
            final(self).wf(),
    {
        let start = AssetBalance::new(Amount::from_whole(SEED_BALANCE), Amount::zero());
        self.balances.set_balance(user_id, BASE_CURRENCY, start);
        self.balances.set_balance(user_id, "TATA", start);
        assert(self@.books == old(self)@.books);
    }

    /// Applies a command; an order that it places gets the id `order_id`.
    #[verifier::rlimit(50)]
    pub fn process_with_order_id(&mut self, message: MessageFromApi, order_id: String, timestamp: u64) -> (result:
        Result<Outcome, EngineError>)
        requires
            old(self).wf(),
        ensures
            applies(old(self)@, final(self)@, message, order_id@, timestamp, result),
            final(self).wf(),
            !is_deposit(message) ==> same_totals(final(self)@.ledger, old(self)@.ledger),
            covered(old(self)@) ==> result is Ok && covered(final(self)@),
    {
        let ghost command = message;
        let ghost id = order_id@;
        let result = match message {
            MessageFromApi::CreateOrder { data, client_id } => self.handle_create_order(
                data,
                client_id.as_str(),
                order_id,
                timestamp,
            ),
            MessageFromApi::CancelOrder { data, client_id } => self.handle_cancel_order(
                data,
                client_id.as_str(),
            ),
            MessageFromApi::GetOpenOrders { data, client_id } => Ok(
                self.handle_get_open_orders(data, client_id.as_str()),
            ),
            MessageFromApi::OnRame { data, client_id: _ } => Ok(self.handle_on_ramp(data)),
            MessageFromApi::GetDepth { data, client_id } => Ok(
                self.handle_get_depth(data, client_id.as_str()),
            ),
        };
        proof {
            if covered(old(self)@) {
                lemma_command_stays_covered(old(self)@, self@, command, id, timestamp, result);
            }
        }
        result
    }

    /// Applies a command; an order that it places gets a fresh random id.
    pub fn process(&mut self, message: MessageFromApi, timestamp: u64) -> (result: Result<
        Outcome,
        EngineError,
    >)
        requires
            old(self).wf(),
        ensures
            exists|id: Seq<char>|
                is_random_name(id, ORDER_ID_LENGTH as nat) && #[trigger] applies(
                    old(self)@,
                    final(self)@,
                    message,
                    id,
                    timestamp,
                    result,
                ),
            final(self).wf(),
            !is_deposit(message) ==> same_totals(final(self)@.ledger, old(self)@.ledger),
            covered(old(self)@) ==> result is Ok && covered(final(self)@),
    {
        let order_id = random_order_id();
        self.process_with_order_id(message, order_id, timestamp)
    }
}

} // verus!
