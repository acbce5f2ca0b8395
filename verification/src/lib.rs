//! A limit-order matching engine for a multi-market spot exchange.
//!
//! - `amount`: exact fixed-point amounts, read from and written as decimal
//!   text.
//! - `order`, `orderbook`: orders, fills, and the book of one market with
//!   matching by price-time priority.
//! - `ledger`: what each user has available and locked of each asset.
//! - `engine`: the single writer that applies one command at a time to the
//!   books and the ledger, and says what to tell the outside.
//! - `events`, `types`, `routes`, `text`, `ids`: the messages that go in and
//!   out, and the names in them.
//! - `laws`, `backing`: what holds of every state and every command:
//!   conservation, price-time priority, fill accounting, and that what
//!   rests in the books is always backed by what is locked.

pub mod amount;
pub mod order;
pub mod orderbook;
pub mod ledger;
pub mod types;
pub mod text;
pub mod ids;
pub mod events;
pub mod engine;
pub mod laws;
pub mod backing;
pub mod routes;
