//! The balance ledger: what each user has available and locked of each
//! asset, and the moves that orders, fills and cancellations make on it.
//!
//! The ledger is a list of entries, at most one for a user and an asset. A
//! user without an entry for an asset holds nothing of it.

use crate::amount::{product_units, Amount, MAX_UNITS};
use crate::order::{fill_views, Fill, FillView, Order, OrderSide, OrderView};
use crate::orderbook::BASE_CURRENCY;
use vstd::prelude::*;

verus! {

/// What a user holds of one asset: free to use, and set aside for orders.
#[derive(Clone, Copy, Debug, PartialEq, Eq, Structural)]
pub struct AssetBalance {
    pub available: Amount,
    pub locked: Amount,
}

impl AssetBalance {
    pub fn new(available: Amount, locked: Amount) -> (balance: Self)
        ensures
            balance.available == available,
            balance.locked == locked,
    {
        Self { available, locked }
    }
}

/// The balance of one user in one asset.
#[derive(Debug)]
pub struct BalanceEntry {
    pub user_id: String,
    pub asset: String,
    pub balance: AssetBalance,
}

/// A ledger entry as plain values.
pub struct EntryView {
    pub user_id: Seq<char>,
    pub asset: Seq<char>,
    pub available: nat,
    pub locked: nat,
}

impl EntryView {
    /// Whether the entry is the one of `user` for `asset`.
    pub open spec fn is_for(self, user: Seq<char>, asset: Seq<char>) -> bool {
        self.user_id == user && self.asset == asset
    }

    /// All that the entry holds.
    pub open spec fn total(self) -> nat {
        self.available + self.locked
    }
}

impl View for BalanceEntry {
    type V = EntryView;

    open spec fn view(&self) -> EntryView {
        EntryView {
            user_id: self.user_id@,
            asset: self.asset@,
            available: self.balance.available@,
            locked: self.balance.locked@,
        }
    }
}

impl Clone for BalanceEntry {
    fn clone(&self) -> (copy: Self)
        ensures
            copy == *self,
    {
        BalanceEntry {
            user_id: self.user_id.clone(),
            asset: self.asset.clone(),
            balance: self.balance,
        }
    }
}

/// Why the ledger refused a move.
#[derive(Clone, Copy, Debug, PartialEq, Eq, Structural)]
pub enum LedgerError {
    /// The user has less available than the order needs.
    InsufficientFunds,
    /// An amount is not a whole number of units, or out of range.
    AmountOutOfRange,
    /// The move would take more than is locked: the ledger and the books
    /// have come apart.
    InvariantViolation,
}

/// The views of a sequence of entries.
pub open spec fn entry_views(entries: Seq<BalanceEntry>) -> Seq<EntryView> {
    entries.map_values(|e: BalanceEntry| e@)
}

/// The index of the entry of `user` for `asset`, or the number of entries
/// where there is none.
pub open spec fn entry_index(entries: Seq<EntryView>, user: Seq<char>, asset: Seq<char>) -> nat
    decreases entries.len(),
{
    if entries.len() == 0 || entries[0].is_for(user, asset) {
        0
    } else {
        1 + entry_index(entries.skip(1), user, asset)
    }
}

/// Whether `user` has an entry for `asset`.
pub open spec fn has_entry(entries: Seq<EntryView>, user: Seq<char>, asset: Seq<char>) -> bool {
    entry_index(entries, user, asset) < entries.len()
}

/// What `user` has available of `asset`.
pub open spec fn available_of(entries: Seq<EntryView>, user: Seq<char>, asset: Seq<char>) -> nat {
    if has_entry(entries, user, asset) {
        entries[entry_index(entries, user, asset) as int].available
    } else {
        0
    }
}

/// What `user` has locked of `asset`.
pub open spec fn locked_of(entries: Seq<EntryView>, user: Seq<char>, asset: Seq<char>) -> nat {
    if has_entry(entries, user, asset) {
        entries[entry_index(entries, user, asset) as int].locked
    } else {
        0
    }
}

/// All of `asset` that the ledger holds, available and locked, over all
/// users.
pub open spec fn asset_total(entries: Seq<EntryView>, asset: Seq<char>) -> nat
    decreases entries.len(),
{
    if entries.len() == 0 {
        0
    } else {
        asset_total(entries.drop_last(), asset) + if entries.last().asset == asset {
            entries.last().total()
        } else {
            0
        }
    }
}

/// No two entries are for the same user and asset.
pub open spec fn distinct_keys(entries: Seq<EntryView>) -> bool {
    forall|i: int, j: int|
        0 <= i < j < entries.len() ==> !(#[trigger] entries[i]).is_for(
            (#[trigger] entries[j]).user_id,
            entries[j].asset,
        )
}

/// At most one entry for a user and an asset, and each entry holds no more
/// than the largest amount.
pub open spec fn ledger_wf(entries: Seq<EntryView>) -> bool {
    &&& distinct_keys(entries)
    &&& forall|i: int| 0 <= i < entries.len() ==> (#[trigger] entries[i]).total() <= MAX_UNITS
}

/// The ledger with `amount` more of `asset` available to `user`; the entry
/// is made where there is none.
pub open spec fn credited(
    entries: Seq<EntryView>,
    user: Seq<char>,
    asset: Seq<char>,
    amount: nat,
) -> Seq<EntryView> {
    let k = entry_index(entries, user, asset) as int;
    if k < entries.len() {
        entries.update(k, EntryView { available: entries[k].available + amount, ..entries[k] })
    } else {
        entries.push(EntryView { user_id: user, asset, available: amount, locked: 0 })
    }
}

/// Whether `amount` more of `asset` can be credited to `user`.
pub open spec fn can_credit(
    entries: Seq<EntryView>,
    user: Seq<char>,
    asset: Seq<char>,
    amount: nat,
) -> bool {
    available_of(entries, user, asset) + locked_of(entries, user, asset) + amount <= MAX_UNITS
}

/// Whether a deposit of `amount` keeps all that the ledger holds of
/// `asset` within range.
pub open spec fn can_deposit(entries: Seq<EntryView>, asset: Seq<char>, amount: nat) -> bool {
    asset_total(entries, asset) + amount <= MAX_UNITS
}

/// The ledger with `amount` less of `asset` locked for `user`, where that
/// much is locked.
pub open spec fn debited(
    entries: Seq<EntryView>,
    user: Seq<char>,
    asset: Seq<char>,
    amount: nat,
) -> Option<Seq<EntryView>> {
    let k = entry_index(entries, user, asset) as int;
    if k < entries.len() && amount <= entries[k].locked {
        Some(entries.update(k, EntryView { locked: (entries[k].locked - amount) as nat, ..entries[k] }))
    } else {
        None
    }
}

/// The ledger with `amount` of `asset` moved from available to locked for
/// `user`, where that much is available.
pub open spec fn reserved(
    entries: Seq<EntryView>,
    user: Seq<char>,
    asset: Seq<char>,
    amount: nat,
) -> Option<Seq<EntryView>> {
    let k = entry_index(entries, user, asset) as int;
    if amount == 0 {
        Some(entries)
    } else if k < entries.len() && amount <= entries[k].available {
        Some(
            entries.update(
                k,
                EntryView {
                    available: (entries[k].available - amount) as nat,
                    locked: entries[k].locked + amount,
                    ..entries[k]
                },
            ),
        )
    } else {
        None
    }
}

/// The ledger with `amount` of `asset` moved from locked to available for
/// `user`, where that much is locked.
pub open spec fn released(
    entries: Seq<EntryView>,
    user: Seq<char>,
    asset: Seq<char>,
    amount: nat,
) -> Option<Seq<EntryView>> {
    let k = entry_index(entries, user, asset) as int;
    if amount == 0 {
        Some(entries)
    } else if k < entries.len() && amount <= entries[k].locked {
        Some(
            entries.update(
                k,
                EntryView {
                    available: entries[k].available + amount,
                    locked: (entries[k].locked - amount) as nat,
                    ..entries[k]
                },
            ),
        )
    } else {
        None
    }
}

/// The asset that an order of side `side` locks: quote to buy, base to sell.
pub open spec fn lock_asset(side: OrderSide, base: Seq<char>, quote: Seq<char>) -> Seq<char> {
    match side {
        OrderSide::Buy => quote,
        OrderSide::Sell => base,
    }
}

/// What an order for `quantity` at `price` locks: price times quantity to
/// buy, the quantity to sell.
pub open spec fn lock_amount(side: OrderSide, price: nat, quantity: nat) -> Option<nat> {
    match side {
        OrderSide::Buy => product_units(price, quantity),
        OrderSide::Sell => Some(quantity),
    }
}

/// What locking for an order makes of the ledger.
pub open spec fn lock_outcome(
    entries: Seq<EntryView>,
    user: Seq<char>,
    side: OrderSide,
    base: Seq<char>,
    quote: Seq<char>,
    price: nat,
    quantity: nat,
) -> Result<Seq<EntryView>, LedgerError> {
    match lock_amount(side, price, quantity) {
        None => Err(LedgerError::AmountOutOfRange),
        Some(need) => match reserved(entries, user, lock_asset(side, base, quote), need) {
            Some(after) => Ok(after),
            None => Err(LedgerError::InsufficientFunds),
        },
    }
}

/// What one fill between `buyer` and `seller` makes of the ledger: the
/// buyer pays price times quantity of quote out of what is locked, the
/// seller gives the quantity of base out of what is locked, and then the
/// buyer gets the quantity and the seller the payment. `None` where the
/// product is no amount, less is locked than is owed, or a balance would
/// leave the range.
pub open spec fn settled_fill(
    entries: Seq<EntryView>,
    buyer: Seq<char>,
    seller: Seq<char>,
    base: Seq<char>,
    quote: Seq<char>,
    price: nat,
    qty: nat,
) -> Option<Seq<EntryView>> {
    match product_units(price, qty) {
        None => None,
        Some(value) => match debited(entries, buyer, quote, value) {
            None => None,
            Some(paid) => match debited(paid, seller, base, qty) {
                None => None,
                Some(delivered) => if !can_credit(delivered, buyer, base, qty) {
                    None
                } else if !can_credit(credited(delivered, buyer, base, qty), seller, quote, value) {
                    None
                } else {
                    Some(credited(credited(delivered, buyer, base, qty), seller, quote, value))
                },
            },
        },
    }
}

/// Who buys in a fill of an incoming order of `taker` on side `side`.
pub open spec fn buyer_of(taker: Seq<char>, side: OrderSide, fill: FillView) -> Seq<char> {
    match side {
        OrderSide::Buy => taker,
        OrderSide::Sell => fill.other_user_id,
    }
}

/// Who sells in a fill of an incoming order of `taker` on side `side`.
pub open spec fn seller_of(taker: Seq<char>, side: OrderSide, fill: FillView) -> Seq<char> {
    match side {
        OrderSide::Buy => fill.other_user_id,
        OrderSide::Sell => taker,
    }
}

/// What the fills of one incoming order make of the ledger, one after the
/// other; `None` where one of them cannot be settled.
pub open spec fn settled(
    entries: Seq<EntryView>,
    taker: Seq<char>,
    side: OrderSide,
    base: Seq<char>,
    quote: Seq<char>,
    fills: Seq<FillView>,
) -> Option<Seq<EntryView>>
    decreases fills.len(),
{
    if fills.len() == 0 {
        Some(entries)
    } else {
        match settled(entries, taker, side, base, quote, fills.drop_last()) {
            None => None,
            Some(before) => settled_fill(
                before,
                buyer_of(taker, side, fills.last()),
                seller_of(taker, side, fills.last()),
                base,
                quote,
                fills.last().price,
                fills.last().qty,
            ),
        }
    }
}

/// What an order still has locked: for a bid price times what is left of
/// it, for an ask what is left of it.
pub open spec fn residual_lock(order: OrderView) -> Option<nat> {
    lock_amount(order.side, order.price, order.remaining())
}

/// What cancelling an order makes of the ledger.
pub open spec fn unlock_outcome(
    entries: Seq<EntryView>,
    order: OrderView,
    base: Seq<char>,
    quote: Seq<char>,
) -> Option<Seq<EntryView>> {
    match residual_lock(order) {
        None => None,
        Some(amount) => released(
            entries,
            order.user_id,
            lock_asset(order.side, base, quote),
            amount,
        ),
    }
}

pub proof fn lemma_entry_index(entries: Seq<EntryView>, user: Seq<char>, asset: Seq<char>)
    ensures
        entry_index(entries, user, asset) <= entries.len(),
        has_entry(entries, user, asset) ==> entries[entry_index(
            entries,
            user,
            asset,
        ) as int].is_for(user, asset),
        forall|i: int|
            0 <= i < entry_index(entries, user, asset) ==> !(#[trigger] entries[i]).is_for(
                user,
                asset,
            ),
    decreases entries.len(),
{
    if entries.len() == 0 || entries[0].is_for(user, asset) {
    } else {
        let rest = entries.skip(1);
        lemma_entry_index(rest, user, asset);
        let k = entry_index(rest, user, asset);
        assert forall|i: int| 0 <= i < k + 1 implies !(#[trigger] entries[i]).is_for(
            user,
            asset,
        ) by {
            if i > 0 {
                assert(entries[i] == rest[i - 1]);
            }
        }
        if k < rest.len() {
            assert(entries[k as int + 1] == rest[k as int]);
        }
    }
}

pub proof fn lemma_asset_total_push(entries: Seq<EntryView>, entry: EntryView, asset: Seq<char>)
    ensures
        asset_total(entries.push(entry), asset) == asset_total(entries, asset) + if entry.asset
            == asset {
            entry.total()
        } else {
            0
        },
{
    assert(entries.push(entry).drop_last() =~= entries);
}

pub proof fn lemma_asset_total_update(
    entries: Seq<EntryView>,
    k: int,
    entry: EntryView,
    asset: Seq<char>,
)
    requires
        0 <= k < entries.len(),
        entry.asset == entries[k].asset,
    ensures
        asset_total(entries.update(k, entry), asset) + (if entry.asset == asset {
            entries[k].total()
        } else {
            0
        }) == asset_total(entries, asset) + (if entry.asset == asset {
            entry.total()
        } else {
            0
        }),
    decreases entries.len(),
{
    if k == entries.len() - 1 {
        assert(entries.update(k, entry).drop_last() =~= entries.drop_last());
    } else {
        lemma_asset_total_update(entries.drop_last(), k, entry, asset);
        assert(entries.update(k, entry).drop_last() =~= entries.drop_last().update(k, entry));
    }
}

/// An entry changed in place, with its user and asset kept, leaves the
/// ledger well-formed where the new entry is within range, and leaves
/// every user's entry where it was.
pub proof fn lemma_update_keeps_keys(entries: Seq<EntryView>, k: int, entry: EntryView)
    requires
        ledger_wf(entries),
        0 <= k < entries.len(),
        entry.is_for(entries[k].user_id, entries[k].asset),
        entry.total() <= MAX_UNITS,
    ensures
        ledger_wf(entries.update(k, entry)),
        forall|user: Seq<char>, asset: Seq<char>| #[trigger]
            entry_index(entries.update(k, entry), user, asset) == entry_index(entries, user, asset),
{
    let after = entries.update(k, entry);
    assert forall|user: Seq<char>, asset: Seq<char>| #[trigger]
        entry_index(after, user, asset) == entry_index(entries, user, asset) by {
        lemma_entry_index_same_keys(entries, after, user, asset);
    }
}

/// Two ledgers whose entries are for the same users and assets, place by
/// place, find each user's entry at the same index.
pub proof fn lemma_entry_index_same_keys(
    a: Seq<EntryView>,
    b: Seq<EntryView>,
    user: Seq<char>,
    asset: Seq<char>,
)
    requires
        a.len() == b.len(),
        forall|i: int|
            0 <= i < a.len() ==> (#[trigger] a[i]).user_id == b[i].user_id && a[i].asset
                == b[i].asset,
    ensures
        entry_index(a, user, asset) == entry_index(b, user, asset),
    decreases a.len(),
{
    if a.len() > 0 {
        assert(a[0].user_id == b[0].user_id && a[0].asset == b[0].asset);
        if !a[0].is_for(user, asset) {
            assert forall|i: int| 0 <= i < a.skip(1).len() implies (#[trigger] a.skip(1)[i]).user_id
                == b.skip(1)[i].user_id && a.skip(1)[i].asset == b.skip(1)[i].asset by {
                assert(a.skip(1)[i] == a[i + 1]);
                assert(b.skip(1)[i] == b[i + 1]);
            }
            lemma_entry_index_same_keys(a.skip(1), b.skip(1), user, asset);
        }
    }
}

/// A new entry at the end leaves the other users' entries where they were
/// and is found at the end.
pub proof fn lemma_entry_index_push(
    entries: Seq<EntryView>,
    entry: EntryView,
    user: Seq<char>,
    asset: Seq<char>,
)
    ensures
        has_entry(entries, user, asset) ==> entry_index(entries.push(entry), user, asset)
            == entry_index(entries, user, asset),
        !has_entry(entries, user, asset) && entry.is_for(user, asset) ==> entry_index(
            entries.push(entry),
            user,
            asset,
        ) == entries.len(),
        !has_entry(entries, user, asset) && !entry.is_for(user, asset) ==> entry_index(
            entries.push(entry),
            user,
            asset,
        ) == entries.len() + 1,
    decreases entries.len(),
{
    let after = entries.push(entry);
    if entries.len() == 0 {
        reveal_with_fuel(entry_index, 2);
        assert(after.skip(1) =~= Seq::<EntryView>::empty());
    } else if entries[0].is_for(user, asset) {
    } else {
        lemma_entry_index_push(entries.skip(1), entry, user, asset);
        assert(after.skip(1) =~= entries.skip(1).push(entry));
    }
}

/// The first entries hold no more of an asset than all of them.
pub proof fn lemma_asset_total_prefix(entries: Seq<EntryView>, n: int, asset: Seq<char>)
    requires
        0 <= n <= entries.len(),
    ensures
        asset_total(entries.take(n), asset) <= asset_total(entries, asset),
    decreases entries.len() - n,
{
    if n == entries.len() {
        assert(entries.take(n) =~= entries);
    } else {
        assert(entries.take(n + 1).drop_last() =~= entries.take(n));
        lemma_asset_total_prefix(entries, n + 1, asset);
    }
}

/// No entry holds more of its asset than the ledger holds of it.
pub proof fn lemma_entry_within_total(entries: Seq<EntryView>, k: int)
    requires
        0 <= k < entries.len(),
    ensures
        entries[k].total() <= asset_total(entries, entries[k].asset),
{
    assert(entries.take(k + 1).drop_last() =~= entries.take(k));
    assert(entries.take(k + 1).last() == entries[k]);
    lemma_asset_total_prefix(entries, k + 1, entries[k].asset);
}

/// A deposit that keeps the asset's total within range can be credited.
pub proof fn lemma_deposit_credits(
    entries: Seq<EntryView>,
    user: Seq<char>,
    asset: Seq<char>,
    amount: nat,
)
    requires
        can_deposit(entries, asset, amount),
    ensures
        can_credit(entries, user, asset, amount),
{
    lemma_entry_index(entries, user, asset);
    let k = entry_index(entries, user, asset) as int;
    if k < entries.len() {
        lemma_entry_within_total(entries, k);
    }
}

/// Crediting keeps the ledger well-formed and adds the amount to the total
/// of the asset, and to no other.
pub proof fn lemma_credited(
    entries: Seq<EntryView>,
    user: Seq<char>,
    asset: Seq<char>,
    amount: nat,
)
    requires
        ledger_wf(entries),
        can_credit(entries, user, asset, amount),
    ensures
        ledger_wf(credited(entries, user, asset, amount)),
        forall|a: Seq<char>| #[trigger]
            asset_total(credited(entries, user, asset, amount), a) == asset_total(entries, a) + if a
                == asset {
                amount
            } else {
                0
            },
{
    let after = credited(entries, user, asset, amount);
    let k = entry_index(entries, user, asset) as int;
    lemma_entry_index(entries, user, asset);
    if k < entries.len() {
        let entry = EntryView { available: entries[k].available + amount, ..entries[k] };
        lemma_update_keeps_keys(entries, k, entry);
        assert forall|a: Seq<char>| #[trigger]
            asset_total(after, a) == asset_total(entries, a) + if a == asset {
                amount
            } else {
                0
            } by {
            lemma_asset_total_update(entries, k, entry, a);
        }
    } else {
        let entry = EntryView { user_id: user, asset, available: amount, locked: 0 };
        assert forall|a: Seq<char>| #[trigger]
            asset_total(after, a) == asset_total(entries, a) + if a == asset {
                amount
            } else {
                0
            } by {
            lemma_asset_total_push(entries, entry, a);
        }
        assert forall|i: int, j: int| 0 <= i < j < after.len() implies !(#[trigger] after[i]).is_for(
            (#[trigger] after[j]).user_id,
            after[j].asset,
        ) by {
            if j < entries.len() {
                assert(after[i] == entries[i]);
                assert(after[j] == entries[j]);
            }
        }
    }
}

/// Debiting keeps the ledger well-formed and takes the amount from the
/// total of the asset, and from no other.
pub proof fn lemma_debited(entries: Seq<EntryView>, user: Seq<char>, asset: Seq<char>, amount: nat)
    requires
        ledger_wf(entries),
        debited(entries, user, asset, amount) is Some,
    ensures
        ledger_wf(debited(entries, user, asset, amount)->0),
        forall|a: Seq<char>| #[trigger]
            asset_total(debited(entries, user, asset, amount)->0, a) + (if a == asset {
                amount
            } else {
                0
            }) == asset_total(entries, a),
{
    let after = debited(entries, user, asset, amount)->0;
    let k = entry_index(entries, user, asset) as int;
    lemma_entry_index(entries, user, asset);
    let entry = EntryView { locked: (entries[k].locked - amount) as nat, ..entries[k] };
    lemma_update_keeps_keys(entries, k, entry);
    assert forall|a: Seq<char>| #[trigger]
        asset_total(after, a) + (if a == asset {
            amount
        } else {
            0
        }) == asset_total(entries, a) by {
        lemma_asset_total_update(entries, k, entry, a);
    }
}

/// Moving an amount between available and locked keeps the ledger
/// well-formed and every total.
pub proof fn lemma_reserved(entries: Seq<EntryView>, user: Seq<char>, asset: Seq<char>, amount: nat)
    requires
        ledger_wf(entries),
    ensures
        reserved(entries, user, asset, amount) matches Some(after) ==> ledger_wf(after) && forall|
            a: Seq<char>,
        | #[trigger] asset_total(after, a) == asset_total(entries, a),
        released(entries, user, asset, amount) matches Some(after) ==> ledger_wf(after) && forall|
            a: Seq<char>,
        | #[trigger] asset_total(after, a) == asset_total(entries, a),
{
    let k = entry_index(entries, user, asset) as int;
    lemma_entry_index(entries, user, asset);
    if amount > 0 && k < entries.len() {
        if amount <= entries[k].available {
            let entry = EntryView {
                available: (entries[k].available - amount) as nat,
                locked: entries[k].locked + amount,
                ..entries[k]
            };
            lemma_update_keeps_keys(entries, k, entry);
            assert forall|a: Seq<char>| #[trigger]
                asset_total(entries.update(k, entry), a) == asset_total(entries, a) by {
                lemma_asset_total_update(entries, k, entry, a);
            }
        }
        if amount <= entries[k].locked {
            let entry = EntryView {
                available: entries[k].available + amount,
                locked: (entries[k].locked - amount) as nat,
                ..entries[k]
            };
            lemma_update_keeps_keys(entries, k, entry);
            assert forall|a: Seq<char>| #[trigger]
                asset_total(entries.update(k, entry), a) == asset_total(entries, a) by {
                lemma_asset_total_update(entries, k, entry, a);
            }
        }
    }
}

/// Settling a fill keeps the ledger well-formed and the total of every
/// asset: what one user pays the other gets.
#[verifier::rlimit(50)]
pub proof fn lemma_settled_fill(
    entries: Seq<EntryView>,
    buyer: Seq<char>,
    seller: Seq<char>,
    base: Seq<char>,
    quote: Seq<char>,
    price: nat,
    qty: nat,
)
    requires
        ledger_wf(entries),
        settled_fill(entries, buyer, seller, base, quote, price, qty) is Some,
    ensures
        ledger_wf(settled_fill(entries, buyer, seller, base, quote, price, qty)->0),
        forall|a: Seq<char>| #[trigger]
            asset_total(settled_fill(entries, buyer, seller, base, quote, price, qty)->0, a)
                == asset_total(entries, a),
{
    let value = product_units(price, qty)->0;
    let paid = debited(entries, buyer, quote, value)->0;
    let delivered = debited(paid, seller, base, qty)->0;
    let got = credited(delivered, buyer, base, qty);
    let after = credited(got, seller, quote, value);
    lemma_debited(entries, buyer, quote, value);
    lemma_debited(paid, seller, base, qty);
    lemma_credited(delivered, buyer, base, qty);
    lemma_credited(got, seller, quote, value);
    assert forall|a: Seq<char>| #[trigger] asset_total(after, a) == asset_total(entries, a) by {
        assert(asset_total(paid, a) + (if a == quote { value } else { 0 }) == asset_total(entries, a));
        assert(asset_total(delivered, a) + (if a == base { qty } else { 0 }) == asset_total(paid, a));
        assert(asset_total(got, a) == asset_total(delivered, a) + if a == base { qty } else { 0 });
        assert(asset_total(after, a) == asset_total(got, a) + if a == quote { value } else { 0 });
    }
}

/// Settling the fills of an order keeps the ledger well-formed and the
/// total of every asset.
pub proof fn lemma_settled(
    entries: Seq<EntryView>,
    taker: Seq<char>,
    side: OrderSide,
    base: Seq<char>,
    quote: Seq<char>,
    fills: Seq<FillView>,
)
    requires
        ledger_wf(entries),
        settled(entries, taker, side, base, quote, fills) is Some,
    ensures
        ledger_wf(settled(entries, taker, side, base, quote, fills)->0),
        forall|a: Seq<char>| #[trigger]
            asset_total(settled(entries, taker, side, base, quote, fills)->0, a) == asset_total(
                entries,
                a,
            ),
    decreases fills.len(),
{
    if fills.len() > 0 {
        lemma_settled(entries, taker, side, base, quote, fills.drop_last());
        let before = settled(entries, taker, side, base, quote, fills.drop_last())->0;
        lemma_settled_fill(
            before,
            buyer_of(taker, side, fills.last()),
            seller_of(taker, side, fills.last()),
            base,
            quote,
            fills.last().price,
            fills.last().qty,
        );
        let after = settled(entries, taker, side, base, quote, fills)->0;
        assert forall|a: Seq<char>| #[trigger] asset_total(after, a) == asset_total(entries, a) by {
            assert(asset_total(before, a) == asset_total(entries, a));
        }
    }
}

/// Where settling a run of fills fails, settling any longer run fails.
pub proof fn lemma_settled_prefix(
    entries: Seq<EntryView>,
    taker: Seq<char>,
    side: OrderSide,
    base: Seq<char>,
    quote: Seq<char>,
    fills: Seq<FillView>,
    n: int,
)
    requires
        0 <= n <= fills.len(),
        settled(entries, taker, side, base, quote, fills.take(n)) is None,
    ensures
        settled(entries, taker, side, base, quote, fills) is None,
    decreases fills.len() - n,
{
    if n == fills.len() {
        assert(fills.take(n) =~= fills);
    } else {
        assert(fills.take(n + 1).drop_last() =~= fills.take(n));
        lemma_settled_prefix(entries, taker, side, base, quote, fills, n + 1);
    }
}

/// The ledger with the balance of `user` in `asset` set to `available` and
/// `locked`; the entry is made where there is none.
pub open spec fn with_balance(
    entries: Seq<EntryView>,
    user: Seq<char>,
    asset: Seq<char>,
    available: nat,
    locked: nat,
) -> Seq<EntryView> {
    let k = entry_index(entries, user, asset) as int;
    if k < entries.len() {
        entries.update(k, EntryView { available, locked, ..entries[k] })
    } else {
        entries.push(EntryView { user_id: user, asset, available, locked })
    }
}

/// Setting a balance within range keeps the ledger well-formed.
pub proof fn lemma_with_balance(
    entries: Seq<EntryView>,
    user: Seq<char>,
    asset: Seq<char>,
    available: nat,
    locked: nat,
)
    requires
        ledger_wf(entries),
        available + locked <= MAX_UNITS,
    ensures
        ledger_wf(with_balance(entries, user, asset, available, locked)),
        available_of(with_balance(entries, user, asset, available, locked), user, asset)
            == available,
        locked_of(with_balance(entries, user, asset, available, locked), user, asset) == locked,
{
    let after = with_balance(entries, user, asset, available, locked);
    let k = entry_index(entries, user, asset) as int;
    lemma_entry_index(entries, user, asset);
    if k < entries.len() {
        lemma_update_keeps_keys(entries, k, EntryView { available, locked, ..entries[k] });
    } else {
        let entry = EntryView { user_id: user, asset, available, locked };
        lemma_entry_index_push(entries, entry, user, asset);
        assert forall|i: int, j: int| 0 <= i < j < after.len() implies !(#[trigger] after[i]).is_for(
            (#[trigger] after[j]).user_id,
            after[j].asset,
        ) by {
            if j < entries.len() {
                assert(after[i] == entries[i]);
                assert(after[j] == entries[j]);
            }
        }
    }
}

/// Setting a balance raises the total of no asset by more than the balance.
pub proof fn lemma_with_balance_total(
    entries: Seq<EntryView>,
    user: Seq<char>,
    asset: Seq<char>,
    available: nat,
    locked: nat,
    of: Seq<char>,
)
    ensures
        asset_total(with_balance(entries, user, asset, available, locked), of) <= asset_total(
            entries,
            of,
        ) + available + locked,
{
    let k = entry_index(entries, user, asset) as int;
    lemma_entry_index(entries, user, asset);
    if k < entries.len() {
        lemma_asset_total_update(
            entries,
            k,
            EntryView { available, locked, ..entries[k] },
            of,
        );
    } else {
        lemma_asset_total_push(entries, EntryView { user_id: user, asset, available, locked }, of);
    }
}

/// The balances of all users.
#[derive(Debug)]
pub struct Ledger {
    pub entries: Vec<BalanceEntry>,
}

impl View for Ledger {
    type V = Seq<EntryView>;

    open spec fn view(&self) -> Seq<EntryView> {
        entry_views(self.entries@)
    }
}

/// The index of the entry of `user` for `asset`.
fn find_entry(entries: &Vec<BalanceEntry>, user: &String, asset: &String) -> (found: Option<usize>)
    ensures
        match found {
            Some(k) => k < entries.len() && k == entry_index(entry_views(entries@), user@, asset@),
            None => entry_index(entry_views(entries@), user@, asset@) == entries.len(),
        },
{
    let ghost views = entry_views(entries@);
    let mut k: usize = 0;
    assert(views.skip(0) =~= views);
    while k < entries.len()
        invariant
            k <= entries.len(),
            views == entry_views(entries@),
            entry_index(views, user@, asset@) == k + entry_index(
                views.skip(k as int),
                user@,
                asset@,
            ),
        decreases entries.len() - k,
    {
        assert(views.skip(k as int)[0] == entries@[k as int]@);
        if entries[k].user_id == *user && entries[k].asset == *asset {
            return Some(k);
        }
        assert(views.skip(k as int).skip(1) =~= views.skip(k + 1));
        k = k + 1;
    }
    None
}

/// Credits `amount` of `asset` to what `user` has available, unless the
/// balance would leave the range.
fn credit_entry(entries: &mut Vec<BalanceEntry>, user: &String, asset: &String, amount: Amount) -> (ok:
    bool)
    requires
        ledger_wf(entry_views(old(entries)@)),
        amount.wf(),
    ensures
        ok == can_credit(entry_views(old(entries)@), user@, asset@, amount@),
        ok ==> entry_views(final(entries)@) == credited(
            entry_views(old(entries)@),
            user@,
            asset@,
            amount@,
        ),
        !ok ==> final(entries)@ == old(entries)@,
{
    let ghost before = entry_views(entries@);
    match find_entry(entries, user, asset) {
        Some(k) => {
            assert(before[k as int] == entries@[k as int]@);
            let balance = entries[k].balance;
            if balance.available.units + balance.locked.units + amount.units > MAX_UNITS {
                return false;
            }
            entries[k].balance.available = Amount { units: balance.available.units + amount.units };
            assert(entry_views(entries@) =~= credited(before, user@, asset@, amount@));
            true
        },
        None => {
            entries.push(
                BalanceEntry {
                    user_id: user.clone(),
                    asset: asset.clone(),
                    balance: AssetBalance { available: amount, locked: Amount::zero() },
                },
            );
            assert(entry_views(entries@) =~= credited(before, user@, asset@, amount@));
            true
        },
    }
}

/// Takes `amount` of `asset` from what `user` has locked, where that much
/// is locked.
fn debit_entry(entries: &mut Vec<BalanceEntry>, user: &String, asset: &String, amount: Amount) -> (ok:
    bool)
    ensures
        ok == debited(entry_views(old(entries)@), user@, asset@, amount@) is Some,
        ok ==> entry_views(final(entries)@) == debited(
            entry_views(old(entries)@),
            user@,
            asset@,
            amount@,
        )->0,
        !ok ==> final(entries)@ == old(entries)@,
{
    let ghost before = entry_views(entries@);
    match find_entry(entries, user, asset) {
        Some(k) => {
            assert(before[k as int] == entries@[k as int]@);
            let locked = entries[k].balance.locked;
            if amount.units > locked.units {
                return false;
            }
            entries[k].balance.locked = Amount { units: locked.units - amount.units };
            assert(entry_views(entries@) =~= debited(before, user@, asset@, amount@)->0);
            true
        },
        None => false,
    }
}

/// A copy of the entries.
fn clone_entries(entries: &Vec<BalanceEntry>) -> (copy: Vec<BalanceEntry>)
    ensures
        copy@ == entries@,
{
    let mut copy: Vec<BalanceEntry> = Vec::new();
    let mut i: usize = 0;
    while i < entries.len()
        invariant
            i <= entries.len(),
            copy@ == entries@.take(i as int),
        decreases entries.len() - i,
    {
        copy.push(entries[i].clone());
        assert(copy@ =~= entries@.take(i + 1));
        i = i + 1;
    }
    assert(entries@.take(entries.len() as int) =~= entries@);
    copy
}

/// Settles one fill between `buyer` and `seller`.
#[verifier::rlimit(50)]
fn settle_fill(
    entries: &mut Vec<BalanceEntry>,
    buyer: &String,
    seller: &String,
    base: &String,
    quote: &String,
    price: Amount,
    qty: Amount,
) -> (ok: bool)
    requires
        ledger_wf(entry_views(old(entries)@)),
        price.wf(),
        qty.wf(),
    ensures
        ok == settled_fill(
            entry_views(old(entries)@),
            buyer@,
            seller@,
            base@,
            quote@,
            price@,
            qty@,
        ) is Some,
        ok ==> entry_views(final(entries)@) == settled_fill(
            entry_views(old(entries)@),
            buyer@,
            seller@,
            base@,
            quote@,
            price@,
            qty@,
        )->0,
        ok ==> ledger_wf(entry_views(final(entries)@)),
{
    let ghost before = entry_views(entries@);
    let value = match price.checked_mul(qty) {
        Some(v) => v,
        None => {
            return false;
        },
    };
    if !debit_entry(entries, buyer, quote, value) {
        return false;
    }
    proof {
        lemma_debited(before, buyer@, quote@, value@);
    }
    let ghost paid = entry_views(entries@);
    if !debit_entry(entries, seller, base, qty) {
        return false;
    }
    proof {
        lemma_debited(paid, seller@, base@, qty@);
    }
    let ghost delivered = entry_views(entries@);
    if !credit_entry(entries, buyer, base, qty) {
        return false;
    }
    proof {
        lemma_credited(delivered, buyer@, base@, qty@);
    }
    let ghost got = entry_views(entries@);
    if !credit_entry(entries, seller, quote, value) {
        return false;
    }
    proof {
        lemma_credited(got, seller@, quote@, value@);
    }
    true
}

impl Ledger {
    /// Whether the ledger is well-formed.
    pub open spec fn wf(&self) -> bool {
        ledger_wf(self@)
    }

    /// Whether the ledger is well-formed, checked on the ledger as it
    /// stands.
    pub fn is_well_formed(&self) -> (ok: bool)
        ensures
            ok == self.wf(),
    {
        let ghost views = self@;
        let mut i: usize = 0;
        while i < self.entries.len()
            invariant
                i <= self.entries.len(),
                views == self@,
                forall|a: int, b: int|
                    0 <= a < b < views.len() && b < i ==> !(#[trigger] views[a]).is_for(
                        (#[trigger] views[b]).user_id,
                        views[b].asset,
                    ),
                forall|a: int| 0 <= a < i ==> (#[trigger] views[a]).total() <= MAX_UNITS,
            decreases self.entries.len() - i,
        {
            let entry = &self.entries[i];
            proof {
                lemma_entry_index(views, entry.user_id@, entry.asset@);
                assert(views[i as int] == entry@);
            }
            if entry.balance.available.units > MAX_UNITS || entry.balance.locked.units > MAX_UNITS
                || entry.balance.available.units + entry.balance.locked.units > MAX_UNITS {
                return false;
            }
            match find_entry(&self.entries, &entry.user_id, &entry.asset) {
                Some(k) => {
                    if k != i {
                        return false;
                    }
                },
                None => {
                    return false;
                },
            }
            i = i + 1;
        }
        true
    }

    /// A ledger without entries.
    pub fn new() -> (ledger: Self)
        ensures
            ledger@ == Seq::<EntryView>::empty(),
            ledger.wf(),
    {
        let ledger = Ledger { entries: Vec::new() };
        assert(ledger@ =~= Seq::<EntryView>::empty());
        ledger
    }

    /// What `user_id` holds of `asset`.
    pub fn balance(&self, user_id: &str, asset: &str) -> (balance: AssetBalance)
        ensures
            balance.available@ == available_of(self@, user_id@, asset@),
            balance.locked@ == locked_of(self@, user_id@, asset@),
    {
        let user = user_id.to_string();
        let name = asset.to_string();
        match find_entry(&self.entries, &user, &name) {
            Some(k) => {
                assert(self@[k as int] == self.entries@[k as int]@);
                self.entries[k].balance
            },
            None => AssetBalance { available: Amount::zero(), locked: Amount::zero() },
        }
    }

    /// Sets what `user_id` holds of `asset`.
    pub fn set_balance(&mut self, user_id: &str, asset: &str, balance: AssetBalance)
        requires
            old(self).wf(),
            balance.available@ + balance.locked@ <= MAX_UNITS,
        ensures
            final(self)@ == with_balance(
                old(self)@,
                user_id@,
                asset@,
                balance.available@,
                balance.locked@,
            ),
            final(self).wf(),
    {
        let ghost before = self@;
        let user = user_id.to_string();
        let name = asset.to_string();
        proof {
            lemma_with_balance(before, user_id@, asset@, balance.available@, balance.locked@);
        }
        match find_entry(&self.entries, &user, &name) {
            Some(k) => {
                self.entries[k].balance = balance;
                assert(self@ =~= with_balance(
                    before,
                    user_id@,
                    asset@,
                    balance.available@,
                    balance.locked@,
                ));
            },
            None => {
                self.entries.push(BalanceEntry { user_id: user, asset: name, balance });
                assert(self@ =~= with_balance(
                    before,
                    user_id@,
                    asset@,
                    balance.available@,
                    balance.locked@,
                ));
            },
        }
    }

    /// Makes an entry of nothing for `user_id` and `asset` unless there is
    /// an entry already.
    pub fn ensure(&mut self, user_id: &str, asset: &str)
        requires
            old(self).wf(),
        ensures
            final(self)@ == credited(old(self)@, user_id@, asset@, 0),
            final(self).wf(),
            has_entry(final(self)@, user_id@, asset@),
            has_entry(old(self)@, user_id@, asset@) ==> final(self)@ == old(self)@,
    {
        let user = user_id.to_string();
        let name = asset.to_string();
        proof {
            lemma_entry_index(self@, user_id@, asset@);
            lemma_credited(self@, user_id@, asset@, 0);
            let k = entry_index(self@, user_id@, asset@) as int;
            if k < self@.len() {
                assert(credited(self@, user_id@, asset@, 0) =~= self@);
            } else {
                lemma_entry_index_push(
                    self@,
                    EntryView { user_id: user_id@, asset: asset@, available: 0, locked: 0 },
                    user_id@,
                    asset@,
                );
            }
        }
        credit_entry(&mut self.entries, &user, &name, Amount::zero());
    }

    /// Sets aside what an order needs: price times quantity of the quote
    /// asset to buy, the quantity of the base asset to sell. Where the user
    /// has less available, nothing changes.
    pub fn lock_for_order(
        &mut self,
        user_id: &str,
        side: OrderSide,
        base_asset: &str,
        quote_asset: &str,
        price: Amount,
        quantity: Amount,
    ) -> (result: Result<(), LedgerError>)
        requires
            old(self).wf(),
            price.wf(),
            quantity.wf(),
        ensures
            match lock_outcome(
                old(self)@,
                user_id@,
                side,
                base_asset@,
                quote_asset@,
                price@,
                quantity@,
            ) {
                Ok(after) => result is Ok && final(self)@ == after,
                Err(e) => result == Err::<(), LedgerError>(e) && final(self)@ == old(self)@,
            },
            final(self).wf(),
            forall|a: Seq<char>| #[trigger] asset_total(final(self)@, a) == asset_total(old(self)@, a),
    {
        let ghost before = self@;
        let need = match side {
            OrderSide::Buy => match price.checked_mul(quantity) {
                Some(n) => n,
                None => {
                    return Err(LedgerError::AmountOutOfRange);
                },
            },
            OrderSide::Sell => quantity,
        };
        let user = user_id.to_string();
        let asset = match side {
            OrderSide::Buy => quote_asset.to_string(),
            OrderSide::Sell => base_asset.to_string(),
        };
        proof {
            lemma_reserved(before, user@, asset@, need@);
        }
        if need.units == 0 {
            return Ok(());
        }
        match find_entry(&self.entries, &user, &asset) {
            Some(k) => {
                assert(before[k as int] == self.entries@[k as int]@);
                let balance = self.entries[k].balance;
                if balance.available.units < need.units {
                    return Err(LedgerError::InsufficientFunds);
                }
                self.entries[k].balance = AssetBalance {
                    available: Amount { units: balance.available.units - need.units },
                    locked: Amount { units: balance.locked.units + need.units },
                };
                assert(self@ =~= reserved(before, user@, asset@, need@)->0);
                Ok(())
            },
            None => Err(LedgerError::InsufficientFunds),
        }
    }

    /// Settles the fills of an incoming order of `taker_user`, one after
    /// the other. Either all of them are settled or the ledger stays as it
    /// was.
    #[verifier::rlimit(50)]
    pub fn settle_fills(
        &mut self,
        taker_user: &str,
        side: OrderSide,
        base_asset: &str,
        quote_asset: &str,
        fills: &Vec<Fill>,
    ) -> (result: Result<(), LedgerError>)
        requires
            old(self).wf(),
            forall|i: int|
                0 <= i < fills.len() ==> (#[trigger] fills[i]).price.wf() && fills[i].qty.wf(),
        ensures
            match settled(
                old(self)@,
                taker_user@,
                side,
                base_asset@,
                quote_asset@,
                fill_views(fills@),
            ) {
                Some(after) => result is Ok && final(self)@ == after,
                None => result == Err::<(), LedgerError>(LedgerError::InvariantViolation)
                    && final(self)@ == old(self)@,
            },
            final(self).wf(),
            forall|a: Seq<char>| #[trigger] asset_total(final(self)@, a) == asset_total(old(self)@, a),
    {
        let ghost before = self@;
        let ghost all = fill_views(fills@);
        let taker = taker_user.to_string();
        let base = base_asset.to_string();
        let quote = quote_asset.to_string();
        let mut work = clone_entries(&self.entries);
        let mut i: usize = 0;
        assert(all.take(0) =~= Seq::<FillView>::empty());
        while i < fills.len()
            invariant
                i <= fills.len(),
                all == fill_views(fills@),
                taker@ == taker_user@,
                base@ == base_asset@,
                quote@ == quote_asset@,
                forall|j: int|
                    0 <= j < fills.len() ==> (#[trigger] fills[j]).price.wf() && fills[j].qty.wf(),
                ledger_wf(before),
                self@ == before,
                ledger_wf(entry_views(work@)),
                settled(before, taker@, side, base@, quote@, all.take(i as int)) == Some(
                    entry_views(work@),
                ),
            decreases fills.len() - i,
        {
            let fill = &fills[i];
            proof {
                assert(all.take(i + 1).drop_last() =~= all.take(i as int));
                assert(all.take(i + 1).last() == fill@);
            }
            let ok = match side {
                OrderSide::Buy => settle_fill(
                    &mut work,
                    &taker,
                    &fill.other_user_id,
                    &base,
                    &quote,
                    fill.price,
                    fill.qty,
                ),
                OrderSide::Sell => settle_fill(
                    &mut work,
                    &fill.other_user_id,
                    &taker,
                    &base,
                    &quote,
                    fill.price,
                    fill.qty,
                ),
            };
            if !ok {
                proof {
                    lemma_settled_prefix(before, taker@, side, base@, quote@, all, i + 1);
                }
                return Err(LedgerError::InvariantViolation);
            }
            i = i + 1;
        }
        proof {
            assert(all.take(fills.len() as int) =~= all);
            lemma_settled(before, taker@, side, base@, quote@, all);
        }
        self.entries = work;
        Ok(())
    }

    /// Gives back what a cancelled order still has locked: price times what
    /// is left of a bid in the quote asset, what is left of an ask in the
    /// base asset. Where less is locked, nothing changes.
    pub fn unlock_on_cancel(&mut self, order: &Order, base_asset: &str, quote_asset: &str) -> (result:
        Result<(), LedgerError>)
        requires
            old(self).wf(),
            order@.valid(),
        ensures
            match unlock_outcome(old(self)@, order@, base_asset@, quote_asset@) {
                Some(after) => result is Ok && final(self)@ == after,
                None => result == Err::<(), LedgerError>(LedgerError::InvariantViolation)
                    && final(self)@ == old(self)@,
            },
            final(self).wf(),
            forall|a: Seq<char>| #[trigger] asset_total(final(self)@, a) == asset_total(old(self)@, a),
    {
        let ghost before = self@;
        let left = order.remaining();
        let amount = match order.side {
            OrderSide::Buy => match order.price.checked_mul(left) {
                Some(n) => n,
                None => {
                    return Err(LedgerError::InvariantViolation);
                },
            },
            OrderSide::Sell => left,
        };
        let asset = match order.side {
            OrderSide::Buy => quote_asset.to_string(),
            OrderSide::Sell => base_asset.to_string(),
        };
        proof {
            lemma_reserved(before, order.user_id@, asset@, amount@);
        }
        if amount.units == 0 {
            return Ok(());
        }
        match find_entry(&self.entries, &order.user_id, &asset) {
            Some(k) => {
                assert(before[k as int] == self.entries@[k as int]@);
                let balance = self.entries[k].balance;
                if balance.locked.units < amount.units {
                    return Err(LedgerError::InvariantViolation);
                }
                self.entries[k].balance = AssetBalance {
                    available: Amount { units: balance.available.units + amount.units },
                    locked: Amount { units: balance.locked.units - amount.units },
                };
                assert(self@ =~= released(before, order.user_id@, asset@, amount@)->0);
                Ok(())
            },
            None => Err(LedgerError::InvariantViolation),
        }
    }

    /// All of `asset` that the ledger holds, over all users, or `None`
    /// where that is out of range.
    pub fn total_of(&self, asset: &str) -> (total: Option<Amount>)
        requires
            self.wf(),
        ensures
            match total {
                Some(t) => t@ == asset_total(self@, asset@) && t.wf(),
                None => asset_total(self@, asset@) > MAX_UNITS,
            },
    {
        let ghost views = self@;
        let name = asset.to_string();
        let mut total: u128 = 0;
        let mut i: usize = 0;
        assert(views.take(0) =~= Seq::<EntryView>::empty());
        while i < self.entries.len()
            invariant
                i <= self.entries.len(),
                views == self@,
                ledger_wf(views),
                name@ == asset@,
                total == asset_total(views.take(i as int), asset@),
                total <= MAX_UNITS,
            decreases self.entries.len() - i,
        {
            let entry = &self.entries[i];
            proof {
                assert(views.take(i + 1).drop_last() =~= views.take(i as int));
                assert(views.take(i + 1).last() == entry@);
                assert(views[i as int] == entry@);
                lemma_asset_total_prefix(views, i + 1, asset@);
            }
            if entry.asset == name {
                total = total + entry.balance.available.units + entry.balance.locked.units;
                if total > MAX_UNITS {
                    return None;
                }
            }
            i = i + 1;
        }
        assert(views.take(self.entries.len() as int) =~= views);
        Some(Amount { units: total })
    }

    /// Credits `amount` of the base currency to what `user_id` has
    /// available. Where all that the ledger holds of the base currency
    /// would leave the range, nothing changes.
    pub fn on_ramp(&mut self, user_id: &str, amount: Amount) -> (result: Result<(), LedgerError>)
        requires
            old(self).wf(),
            amount.wf(),
        ensures
            result is Ok <==> can_deposit(old(self)@, BASE_CURRENCY@, amount@),
            result is Ok ==> final(self)@ == credited(
                old(self)@,
                user_id@,
                BASE_CURRENCY@,
                amount@,
            ),
            result is Err ==> result == Err::<(), LedgerError>(LedgerError::AmountOutOfRange)
                && final(self)@ == old(self)@,
            final(self).wf(),
            forall|a: Seq<char>| #[trigger]
                asset_total(final(self)@, a) == asset_total(old(self)@, a) + if result is Ok && a
                    == BASE_CURRENCY@ {
                    amount@
                } else {
                    0
                },
    {
        let user = user_id.to_string();
        let currency = BASE_CURRENCY.to_string();
        let within = match self.total_of(BASE_CURRENCY) {
            Some(total) => total.units + amount.units <= MAX_UNITS,
            None => false,
        };
        if !within {
            return Err(LedgerError::AmountOutOfRange);
        }
        proof {
            lemma_deposit_credits(self@, user_id@, BASE_CURRENCY@, amount@);
            lemma_credited(self@, user_id@, BASE_CURRENCY@, amount@);
        }
        let credited = credit_entry(&mut self.entries, &user, &currency, amount);
        assert(credited);
        Ok(())
    }
}

} // verus!
