//! The order book of one market: resting bids and asks in priority order,
//! and matching by price-time priority.
//!
//! Each side is kept best price first, and among equal prices in order of
//! arrival. An incoming order therefore trades with a run of orders at the
//! head of the opposite side, and what is left of it rests behind every
//! order of its own side whose price is as good or better.

use crate::amount::{amount_text, Amount, MAX_UNITS};
use crate::order::{
    fill_views, filled_quantity, fills_wf, order_views, Fill, FillView, Order, OrderSide, OrderView,
};
use vstd::prelude::*;

verus! {

/// The currency in which a market is quoted unless its name says otherwise.
pub const BASE_CURRENCY: &'static str = "INR";

/// Whether an incoming order of side `taker_side` with limit price `limit`
/// may trade with a resting order priced `maker_price`.
pub open spec fn crosses(taker_side: OrderSide, limit: nat, maker_price: nat) -> bool {
    match taker_side {
        OrderSide::Buy => maker_price <= limit,
        OrderSide::Sell => maker_price >= limit,
    }
}

/// Whether price `a` comes strictly before price `b` on the resting side
/// `side`: lower asks first, higher bids first.
pub open spec fn outranks(side: OrderSide, a: nat, b: nat) -> bool {
    match side {
        OrderSide::Buy => a > b,
        OrderSide::Sell => a < b,
    }
}

/// Every order rests, and on side `side`.
pub open spec fn all_resting(side: OrderSide, orders: Seq<OrderView>) -> bool {
    forall|i: int| 0 <= i < orders.len() ==> (#[trigger] orders[i]).resting() && orders[i].side == side
}

/// No order comes after one that it outranks.
pub open spec fn priority_sorted(side: OrderSide, orders: Seq<OrderView>) -> bool {
    forall|i: int, j: int|
        0 <= i < j < orders.len() ==> !outranks(
            side,
            (#[trigger] orders[j]).price,
            (#[trigger] orders[i]).price,
        )
}

/// Whether some order carries the id.
pub open spec fn has_id(orders: Seq<OrderView>, id: Seq<char>) -> bool {
    exists|i: int| 0 <= i < orders.len() && (#[trigger] orders[i]).order_id == id
}

/// No two orders carry the same id.
pub open spec fn distinct_ids(orders: Seq<OrderView>) -> bool {
    forall|i: int, j: int|
        0 <= i < j < orders.len() ==> (#[trigger] orders[i]).order_id != (
        #[trigger] orders[j]).order_id
}

/// The quantity left to trade over all the orders.
pub open spec fn total_remaining(orders: Seq<OrderView>) -> nat
    decreases orders.len(),
{
    if orders.len() == 0 {
        0
    } else {
        total_remaining(orders.drop_last()) + orders.last().remaining()
    }
}

/// The quantity left to trade over the orders priced `price`.
pub open spec fn level_total(orders: Seq<OrderView>, price: nat) -> nat
    decreases orders.len(),
{
    if orders.len() == 0 {
        0
    } else {
        level_total(orders.drop_last(), price) + if orders.last().price == price {
            orders.last().remaining()
        } else {
            0
        }
    }
}

/// The fill of `qty` against the resting order `maker`.
pub open spec fn fill_against(maker: OrderView, qty: nat, trade_id: nat) -> FillView {
    FillView {
        price: maker.price,
        qty,
        trade_id,
        other_user_id: maker.user_id,
        marker_order_id: maker.order_id,
    }
}

/// The smaller of two quantities.
pub open spec fn lesser(a: nat, b: nat) -> nat {
    if a <= b {
        a
    } else {
        b
    }
}

/// The fills of an incoming order for `want` at limit `limit` against
/// `makers`, which are in priority order: it trades with the head order as
/// long as it wants more and the head order's price crosses its limit, and
/// each fill takes the next trade id.
pub open spec fn matched_fills(
    makers: Seq<OrderView>,
    taker_side: OrderSide,
    limit: nat,
    want: nat,
    next_id: nat,
) -> Seq<FillView>
    decreases makers.len(),
{
    if makers.len() == 0 || want == 0 || !crosses(taker_side, limit, makers[0].price) {
        Seq::empty()
    } else {
        let take = lesser(want, makers[0].remaining());
        seq![fill_against(makers[0], take, next_id)] + matched_fills(
            makers.skip(1),
            taker_side,
            limit,
            (want - take) as nat,
            next_id + 1,
        )
    }
}

/// What is left of `makers` after an incoming order for `want` at limit
/// `limit` has traded: orders filled in full are gone, and the one filled
/// in part stays at the head.
pub open spec fn makers_after(
    makers: Seq<OrderView>,
    taker_side: OrderSide,
    limit: nat,
    want: nat,
) -> Seq<OrderView>
    decreases makers.len(),
{
    if makers.len() == 0 || want == 0 || !crosses(taker_side, limit, makers[0].price) {
        makers
    } else if want < makers[0].remaining() {
        makers.update(0, makers[0].fill(want))
    } else {
        makers_after(
            makers.skip(1),
            taker_side,
            limit,
            (want - makers[0].remaining()) as nat,
        )
    }
}

/// Where an order priced `price` comes to rest among `orders` of its own
/// side: behind every order that it does not outrank.
pub open spec fn rest_index(side: OrderSide, orders: Seq<OrderView>, price: nat) -> nat
    decreases orders.len(),
{
    if orders.len() == 0 || outranks(side, price, orders[0].price) {
        0
    } else {
        1 + rest_index(side, orders.skip(1), price)
    }
}

/// `orders` with `order` at rest among them.
pub open spec fn rested(side: OrderSide, orders: Seq<OrderView>, order: OrderView) -> Seq<
    OrderView,
> {
    orders.insert(rest_index(side, orders, order.price) as int, order)
}

pub proof fn lemma_rest_index(side: OrderSide, orders: Seq<OrderView>, price: nat)
    ensures
        rest_index(side, orders, price) <= orders.len(),
        forall|i: int|
            0 <= i < rest_index(side, orders, price) ==> !outranks(
                side,
                price,
                (#[trigger] orders[i]).price,
            ),
        rest_index(side, orders, price) < orders.len() ==> outranks(
            side,
            price,
            orders[rest_index(side, orders, price) as int].price,
        ),
    decreases orders.len(),
{
    if orders.len() == 0 || outranks(side, price, orders[0].price) {
    } else {
        lemma_rest_index(side, orders.skip(1), price);
        let k = rest_index(side, orders.skip(1), price);
        assert forall|i: int| 0 <= i < k + 1 implies !outranks(
            side,
            price,
            (#[trigger] orders[i]).price,
        ) by {
            if i > 0 {
                assert(orders[i] == orders.skip(1)[i - 1]);
            }
        }
        if k + 1 < orders.len() {
            assert(orders[k as int + 1] == orders.skip(1)[k as int]);
        }
    }
}

pub proof fn lemma_total_remaining_push(orders: Seq<OrderView>, order: OrderView)
    ensures
        total_remaining(orders.push(order)) == total_remaining(orders) + order.remaining(),
{
    assert(orders.push(order).drop_last() =~= orders);
}

pub proof fn lemma_total_remaining_split(orders: Seq<OrderView>, k: int)
    requires
        0 <= k <= orders.len(),
    ensures
        total_remaining(orders) == total_remaining(orders.take(k)) + total_remaining(
            orders.skip(k),
        ),
    decreases orders.len(),
{
    if k == orders.len() {
        assert(orders.take(k) =~= orders);
        assert(orders.skip(k) =~= Seq::empty());
    } else {
        lemma_total_remaining_split(orders.drop_last(), k);
        assert(orders.drop_last().take(k) =~= orders.take(k));
        assert(orders.skip(k).drop_last() =~= orders.drop_last().skip(k));
    }
}

pub proof fn lemma_total_remaining_update(orders: Seq<OrderView>, k: int, order: OrderView)
    requires
        0 <= k < orders.len(),
    ensures
        total_remaining(orders.update(k, order)) + orders[k].remaining() == total_remaining(
            orders,
        ) + order.remaining(),
    decreases orders.len(),
{
    if k == orders.len() - 1 {
        assert(orders.update(k, order).drop_last() =~= orders.drop_last());
    } else {
        lemma_total_remaining_update(orders.drop_last(), k, order);
        assert(orders.update(k, order).drop_last() =~= orders.drop_last().update(k, order));
    }
}

pub proof fn lemma_total_remaining_insert(orders: Seq<OrderView>, k: int, order: OrderView)
    requires
        0 <= k <= orders.len(),
    ensures
        total_remaining(orders.insert(k, order)) == total_remaining(orders) + order.remaining(),
    decreases orders.len(),
{
    if k == orders.len() {
        assert(orders.insert(k, order) =~= orders.push(order));
        lemma_total_remaining_push(orders, order);
    } else {
        lemma_total_remaining_insert(orders.drop_last(), k, order);
        assert(orders.insert(k, order).drop_last() =~= orders.drop_last().insert(k, order));
        assert(orders.insert(k, order).last() == orders.last());
    }
}

pub proof fn lemma_level_total_bounded(orders: Seq<OrderView>, price: nat)
    ensures
        level_total(orders, price) <= total_remaining(orders),
    decreases orders.len(),
{
    if orders.len() > 0 {
        lemma_level_total_bounded(orders.drop_last(), price);
    }
}

pub proof fn lemma_filled_quantity_prepend(first: FillView, rest: Seq<FillView>)
    ensures
        filled_quantity(seq![first] + rest) == first.qty + filled_quantity(rest),
    decreases rest.len(),
{
    if rest.len() == 0 {
        reveal_with_fuel(filled_quantity, 2);
        assert(seq![first] + rest =~= seq![first]);
        assert(seq![first].drop_last() =~= Seq::<FillView>::empty());
    } else {
        lemma_filled_quantity_prepend(first, rest.drop_last());
        assert((seq![first] + rest).drop_last() =~= seq![first] + rest.drop_last());
    }
}

/// What matching does, fill by fill: the fills go down the makers from the
/// head, each at its maker's price and with the next trade id, each for a
/// positive quantity that its maker had left; together they trade no more
/// than was wanted and exactly what the makers lose; and where less than
/// was wanted has traded, no maker that is left crosses the limit.
#[verifier::rlimit(50)]
pub proof fn lemma_matching(
    makers: Seq<OrderView>,
    taker_side: OrderSide,
    limit: nat,
    want: nat,
    next_id: nat,
)
    requires
        all_resting(taker_side.opposite(), makers),
        priority_sorted(taker_side.opposite(), makers),
    ensures
        ({
            let fills = matched_fills(makers, taker_side, limit, want, next_id);
            let after = makers_after(makers, taker_side, limit, want);
            &&& fills.len() <= makers.len()
            &&& filled_quantity(fills) <= want
            &&& forall|i: int|
                0 <= i < fills.len() ==> {
                    &&& (#[trigger] fills[i]) == fill_against(makers[i], fills[i].qty, (next_id + i) as nat)
                    &&& 0 < fills[i].qty <= makers[i].remaining()
                    &&& crosses(taker_side, limit, makers[i].price)
                }
            &&& total_remaining(after) + filled_quantity(fills) == total_remaining(makers)
            &&& filled_quantity(fills) < want ==> forall|j: int|
                0 <= j < after.len() ==> !crosses(taker_side, limit, (#[trigger] after[j]).price)
        }),
    decreases makers.len(),
{
    let fills = matched_fills(makers, taker_side, limit, want, next_id);
    let after = makers_after(makers, taker_side, limit, want);
    if makers.len() == 0 || want == 0 {
    } else if !crosses(taker_side, limit, makers[0].price) {
        assert forall|j: int| 0 <= j < after.len() implies !crosses(
            taker_side,
            limit,
            (#[trigger] after[j]).price,
        ) by {
            if j > 0 {
                assert(!outranks(taker_side.opposite(), makers[j].price, makers[0].price));
            }
        }
    } else {
        let take = lesser(want, makers[0].remaining());
        let rest = makers.skip(1);
        let first = fill_against(makers[0], take, next_id);
        let rest_fills = matched_fills(rest, taker_side, limit, (want - take) as nat, next_id + 1);
        assert(makers[0].resting());
        assert forall|i: int| 0 <= i < rest.len() implies (#[trigger] rest[i]).resting()
            && rest[i].side == taker_side.opposite() by {
            assert(rest[i] == makers[i + 1]);
        }
        assert forall|i: int, j: int| 0 <= i < j < rest.len() implies !outranks(
            taker_side.opposite(),
            (#[trigger] rest[j]).price,
            (#[trigger] rest[i]).price,
        ) by {
            assert(rest[i] == makers[i + 1]);
            assert(rest[j] == makers[j + 1]);
        }
        lemma_matching(rest, taker_side, limit, (want - take) as nat, next_id + 1);
        lemma_filled_quantity_prepend(first, rest_fills);
        lemma_total_remaining_split(makers, 1);
        assert(makers.take(1) =~= seq![makers[0]]);
        assert(seq![makers[0]].drop_last() =~= Seq::<OrderView>::empty());
        assert(total_remaining(makers.take(1)) == makers[0].remaining()) by {
            reveal_with_fuel(total_remaining, 2);
        }
        assert forall|i: int| 0 <= i < fills.len() implies {
            &&& (#[trigger] fills[i]) == fill_against(makers[i], fills[i].qty, (next_id + i) as nat)
            &&& 0 < fills[i].qty <= makers[i].remaining()
            &&& crosses(taker_side, limit, makers[i].price)
        } by {
            if i > 0 {
                assert(fills[i] == rest_fills[i - 1]);
                assert(rest[i - 1] == makers[i]);
            }
        }
        if want < makers[0].remaining() {
            assert(rest_fills =~= Seq::<FillView>::empty());
            lemma_total_remaining_update(makers, 0, makers[0].fill(want));
        }
    }
}

/// Matching keeps the makers a side of a book: resting, in priority order,
/// with ids that the side held before and no id twice.
#[verifier::rlimit(50)]
pub proof fn lemma_makers_after_side(
    makers: Seq<OrderView>,
    taker_side: OrderSide,
    limit: nat,
    want: nat,
)
    requires
        all_resting(taker_side.opposite(), makers),
        priority_sorted(taker_side.opposite(), makers),
        distinct_ids(makers),
    ensures
        ({
            let after = makers_after(makers, taker_side, limit, want);
            &&& all_resting(taker_side.opposite(), after)
            &&& priority_sorted(taker_side.opposite(), after)
            &&& distinct_ids(after)
            &&& after.len() <= makers.len()
            &&& forall|j: int|
                0 <= j < after.len() ==> (#[trigger] after[j]).order_id == makers[j + makers.len()
                    - after.len()].order_id
            &&& total_remaining(after) <= total_remaining(makers)
        }),
    decreases makers.len(),
{
    let after = makers_after(makers, taker_side, limit, want);
    if makers.len() == 0 || want == 0 || !crosses(taker_side, limit, makers[0].price) {
    } else if want < makers[0].remaining() {
        assert(makers[0].resting());
        lemma_total_remaining_update(makers, 0, makers[0].fill(want));
    } else {
        let rest = makers.skip(1);
        assert forall|i: int| 0 <= i < rest.len() implies (#[trigger] rest[i]).resting()
            && rest[i].side == taker_side.opposite() by {
            assert(rest[i] == makers[i + 1]);
        }
        assert forall|i: int, j: int| 0 <= i < j < rest.len() implies !outranks(
            taker_side.opposite(),
            (#[trigger] rest[j]).price,
            (#[trigger] rest[i]).price,
        ) by {
            assert(rest[i] == makers[i + 1]);
            assert(rest[j] == makers[j + 1]);
        }
        assert forall|i: int, j: int| 0 <= i < j < rest.len() implies (#[trigger] rest[i]).order_id
            != (#[trigger] rest[j]).order_id by {
            assert(rest[i] == makers[i + 1]);
            assert(rest[j] == makers[j + 1]);
        }
        lemma_makers_after_side(rest, taker_side, limit, (want - makers[0].remaining()) as nat);
        lemma_total_remaining_split(makers, 1);
        assert forall|j: int| 0 <= j < after.len() implies (#[trigger] after[j]).order_id
            == makers[j + makers.len() - after.len()].order_id by {
            assert(rest[j + rest.len() - after.len()] == makers[j + makers.len() - after.len()]);
        }
    }
}

/// An order that comes to rest keeps its side in priority order, and
/// stands behind every order of its side with the same price.
#[verifier::rlimit(50)]
pub proof fn lemma_rested_side(side: OrderSide, orders: Seq<OrderView>, order: OrderView)
    requires
        all_resting(side, orders),
        priority_sorted(side, orders),
        distinct_ids(orders),
        order.resting(),
        order.side == side,
        !has_id(orders, order.order_id),
    ensures
        ({
            let k = rest_index(side, orders, order.price) as int;
            let after = rested(side, orders, order);
            &&& 0 <= k <= orders.len()
            &&& after == orders.insert(k, order)
            &&& all_resting(side, after)
            &&& priority_sorted(side, after)
            &&& distinct_ids(after)
            &&& total_remaining(after) == total_remaining(orders) + order.remaining()
            &&& forall|i: int|
                0 <= i < orders.len() && (#[trigger] orders[i]).price == order.price ==> i < k
        }),
{
    let k = rest_index(side, orders, order.price) as int;
    let after = rested(side, orders, order);
    lemma_rest_index(side, orders, order.price);
    lemma_total_remaining_insert(orders, k, order);
    assert forall|i: int| 0 <= i < orders.len() && (#[trigger] orders[i]).price
        == order.price implies i < k by {
        if i >= k {
            assert(outranks(side, order.price, orders[k].price));
            if i > k {
                assert(!outranks(side, orders[i].price, orders[k].price));
            }
        }
    }
    assert forall|i: int, j: int| 0 <= i < j < after.len() implies !outranks(
        side,
        (#[trigger] after[j]).price,
        (#[trigger] after[i]).price,
    ) by {
        if j == k {
            assert(after[i] == orders[i]);
        } else if i == k {
            assert(after[j] == orders[j - 1]);
            assert(outranks(side, order.price, orders[k].price));
            if j - 1 > k {
                assert(!outranks(side, orders[j - 1].price, orders[k].price));
            }
        } else {
            let a = if i < k { i } else { i - 1 };
            let b = if j < k { j } else { j - 1 };
            assert(after[i] == orders[a]);
            assert(after[j] == orders[b]);
        }
    }
    assert forall|i: int, j: int| 0 <= i < j < after.len() implies (#[trigger] after[i]).order_id
        != (#[trigger] after[j]).order_id by {
        let a = if i < k { i } else { i - 1 };
        let b = if j < k { j } else { j - 1 };
        if i == k {
            assert(after[j] == orders[b]);
        } else if j == k {
            assert(after[i] == orders[a]);
        } else {
            assert(after[i] == orders[a]);
            assert(after[j] == orders[b]);
        }
    }
    assert forall|i: int| 0 <= i < after.len() implies (#[trigger] after[i]).resting()
        && after[i].side == side by {
        if i < k {
            assert(after[i] == orders[i]);
        } else if i > k {
            assert(after[i] == orders[i - 1]);
        }
    }
}

/// The index of the first order that carries the id, or the number of
/// orders where none does.
pub open spec fn first_with_id(orders: Seq<OrderView>, id: Seq<char>) -> nat
    decreases orders.len(),
{
    if orders.len() == 0 || orders[0].order_id == id {
        0
    } else {
        1 + first_with_id(orders.skip(1), id)
    }
}

pub proof fn lemma_first_with_id(orders: Seq<OrderView>, id: Seq<char>)
    ensures
        first_with_id(orders, id) <= orders.len(),
        first_with_id(orders, id) < orders.len() ==> orders[first_with_id(
            orders,
            id,
        ) as int].order_id == id,
        forall|i: int| 0 <= i < first_with_id(orders, id) ==> (#[trigger] orders[i]).order_id != id,
        has_id(orders, id) <==> first_with_id(orders, id) < orders.len(),
    decreases orders.len(),
{
    if orders.len() == 0 || orders[0].order_id == id {
    } else {
        let rest = orders.skip(1);
        lemma_first_with_id(rest, id);
        let k = first_with_id(rest, id);
        assert forall|i: int| 0 <= i < k + 1 implies (#[trigger] orders[i]).order_id != id by {
            if i > 0 {
                assert(orders[i] == rest[i - 1]);
            }
        }
        if k < rest.len() {
            assert(orders[k as int + 1] == rest[k as int]);
        }
        if has_id(orders, id) {
            let i = choose|i: int| 0 <= i < orders.len() && (#[trigger] orders[i]).order_id == id;
            assert(rest[i - 1] == orders[i]);
        }
    }
}

/// Taking an order out keeps a side resting, in priority order and with
/// distinct ids, and lowers the quantity resting by what the order had left.
#[verifier::rlimit(50)]
pub proof fn lemma_removed_side(side: OrderSide, orders: Seq<OrderView>, k: int)
    requires
        0 <= k < orders.len(),
        all_resting(side, orders),
        priority_sorted(side, orders),
        distinct_ids(orders),
    ensures
        all_resting(side, orders.remove(k)),
        priority_sorted(side, orders.remove(k)),
        distinct_ids(orders.remove(k)),
        total_remaining(orders.remove(k)) + orders[k].remaining() == total_remaining(orders),
        !has_id(orders.remove(k), orders[k].order_id),
        forall|i: int|
            0 <= i < orders.remove(k).len() ==> has_id(
                orders,
                (#[trigger] orders.remove(k)[i]).order_id,
            ),
{
    let after = orders.remove(k);
    assert forall|i: int| 0 <= i < after.len() implies (#[trigger] after[i]).resting()
        && after[i].side == side && has_id(orders, after[i].order_id) by {
        let a = if i < k { i } else { i + 1 };
        assert(after[i] == orders[a]);
    }
    assert forall|i: int, j: int| 0 <= i < j < after.len() implies !outranks(
        side,
        (#[trigger] after[j]).price,
        (#[trigger] after[i]).price,
    ) && after[i].order_id != after[j].order_id by {
        let a = if i < k { i } else { i + 1 };
        let b = if j < k { j } else { j + 1 };
        assert(after[i] == orders[a]);
        assert(after[j] == orders[b]);
    }
    if has_id(after, orders[k].order_id) {
        let i = choose|i: int| 0 <= i < after.len() && (#[trigger] after[i]).order_id == orders[k].order_id;
        let a = if i < k { i } else { i + 1 };
        assert(after[i] == orders[a]);
    }
    lemma_total_remaining_split(orders, k);
    lemma_total_remaining_split(orders.skip(k), 1);
    lemma_total_remaining_split(after, k);
    assert(after.take(k) =~= orders.take(k));
    assert(after.skip(k) =~= orders.skip(k).skip(1));
    assert(orders.skip(k).take(1) =~= seq![orders[k]]);
    assert(total_remaining(seq![orders[k]]) == orders[k].remaining()) by {
        reveal_with_fuel(total_remaining, 2);
        assert(seq![orders[k]].drop_last() =~= Seq::<OrderView>::empty());
    }
}

/// The distinct prices of the orders, each where it first occurs.
pub open spec fn level_prices(orders: Seq<OrderView>) -> Seq<nat>
    decreases orders.len(),
{
    if orders.len() == 0 {
        Seq::empty()
    } else {
        let before = level_prices(orders.drop_last());
        if before.contains(orders.last().price) {
            before
        } else {
            before.push(orders.last().price)
        }
    }
}

/// The depth of one side: for each price at which an order rests, the
/// quantity left to trade at that price.
pub open spec fn depth_of(orders: Seq<OrderView>) -> Seq<(nat, nat)> {
    level_prices(orders).map_values(|price: nat| (price, level_total(orders, price)))
}

/// Whether the order is one of `user`'s with quantity left to trade.
pub open spec fn open_for(order: OrderView, user: Seq<char>) -> bool {
    order.user_id == user && order.filled < order.quantity
}

/// The orders of `user` with quantity left to trade, asks before bids.
pub open spec fn open_orders_of(book: BookView, user: Seq<char>) -> Seq<OrderView> {
    book.asks.filter(|o: OrderView| open_for(o, user)) + book.bids.filter(
        |o: OrderView| open_for(o, user),
    )
}

pub proof fn lemma_level_prices(orders: Seq<OrderView>)
    ensures
        level_prices(orders).no_duplicates(),
        forall|i: int|
            0 <= i < orders.len() ==> level_prices(orders).contains((#[trigger] orders[i]).price),
        forall|j: int|
            0 <= j < level_prices(orders).len() ==> exists|i: int|
                0 <= i < orders.len() && (#[trigger] orders[i]).price == (#[trigger] level_prices(
                    orders,
                )[j]),
    decreases orders.len(),
{
    if orders.len() > 0 {
        let init = orders.drop_last();
        let before = level_prices(init);
        let now = level_prices(orders);
        lemma_level_prices(init);
        assert forall|i: int| 0 <= i < orders.len() implies now.contains(
            (#[trigger] orders[i]).price,
        ) by {
            if i < init.len() {
                assert(init[i] == orders[i]);
                let j = choose|j: int| 0 <= j < before.len() && before[j] == init[i].price;
                assert(now[j] == init[i].price);
            } else if before.contains(orders.last().price) {
            } else {
                assert(now[now.len() - 1] == orders.last().price);
            }
        }
        assert forall|j: int| 0 <= j < now.len() implies exists|i: int|
            0 <= i < orders.len() && (#[trigger] orders[i]).price == (#[trigger] now[j]) by {
            if j < before.len() {
                let i = choose|i: int| 0 <= i < init.len() && (#[trigger] init[i]).price == before[j];
                assert(orders[i].price == now[j]);
            } else {
                assert(orders[orders.len() - 1].price == now[j]);
            }
        }
    }
}

pub proof fn lemma_level_total_absent(orders: Seq<OrderView>, price: nat)
    requires
        forall|i: int| 0 <= i < orders.len() ==> (#[trigger] orders[i]).price != price,
    ensures
        level_total(orders, price) == 0,
    decreases orders.len(),
{
    if orders.len() > 0 {
        assert forall|i: int| 0 <= i < orders.drop_last().len() implies (#[trigger] orders.drop_last()[i]).price
            != price by {
            assert(orders.drop_last()[i] == orders[i]);
        }
        lemma_level_total_absent(orders.drop_last(), price);
    }
}

/// What matching one incoming order gives: the quantity that traded and the
/// fills, in the order in which they were made.
#[derive(Debug)]
pub struct OrderMatchResult {
    pub executed_qty: Amount,
    pub fills: Vec<Fill>,
}

/// The order book of one market.
#[derive(Debug)]
pub struct Orderbook {
    pub bids: Vec<Order>,
    pub asks: Vec<Order>,
    pub base_asset: String,
    pub quote_asset: String,
    pub last_trade_id: u64,
    pub current_price: Amount,
}

/// An order book as plain values.
pub struct BookView {
    pub bids: Seq<OrderView>,
    pub asks: Seq<OrderView>,
    pub base_asset: Seq<char>,
    pub quote_asset: Seq<char>,
    pub last_trade_id: nat,
    pub current_price: nat,
}

impl BookView {
    /// The resting orders of side `side`.
    pub open spec fn side(self, side: OrderSide) -> Seq<OrderView> {
        match side {
            OrderSide::Buy => self.bids,
            OrderSide::Sell => self.asks,
        }
    }

    /// Both sides hold resting orders of their own side in priority order,
    /// no id occurs twice, and the quantity resting on a side is in range.
    pub open spec fn wf(self) -> bool {
        &&& all_resting(OrderSide::Buy, self.bids)
        &&& all_resting(OrderSide::Sell, self.asks)
        &&& priority_sorted(OrderSide::Buy, self.bids)
        &&& priority_sorted(OrderSide::Sell, self.asks)
        &&& distinct_ids(self.bids)
        &&& distinct_ids(self.asks)
        &&& forall|i: int, j: int|
            0 <= i < self.bids.len() && 0 <= j < self.asks.len() ==> (#[trigger] self.bids[i]).order_id
                != (#[trigger] self.asks[j]).order_id
        &&& total_remaining(self.bids) <= MAX_UNITS
        &&& total_remaining(self.asks) <= MAX_UNITS
        &&& self.current_price <= MAX_UNITS
    }

    /// Whether an order with the id rests in the book.
    pub open spec fn holds(self, id: Seq<char>) -> bool {
        has_id(self.bids, id) || has_id(self.asks, id)
    }

    /// Whether the book can take the incoming order: the order is valid and
    /// unfilled, its id is new, the trade ids that its fills may need exist,
    /// and with it the quantity resting on its side stays within range.
    pub open spec fn accepts(self, order: OrderView) -> bool {
        &&& order.valid()
        &&& order.filled == 0
        &&& !self.holds(order.order_id)
        &&& self.last_trade_id + self.side(order.side.opposite()).len() <= u64::MAX
        &&& total_remaining(self.side(order.side)) + order.quantity <= MAX_UNITS
    }

    /// The book without the first order of side `side` that carries the id.
    pub open spec fn without(self, side: OrderSide, id: Seq<char>) -> BookView {
        let k = first_with_id(self.side(side), id) as int;
        if k < self.side(side).len() {
            match side {
                OrderSide::Buy => BookView { bids: self.bids.remove(k), ..self },
                OrderSide::Sell => BookView { asks: self.asks.remove(k), ..self },
            }
        } else {
            self
        }
    }

    /// The resting order that carries the id, bids searched before asks.
    pub open spec fn order_with(self, id: Seq<char>) -> Option<OrderView> {
        if has_id(self.bids, id) {
            Some(self.bids[first_with_id(self.bids, id) as int])
        } else if has_id(self.asks, id) {
            Some(self.asks[first_with_id(self.asks, id) as int])
        } else {
            None
        }
    }

    /// The fills of the incoming order.
    pub open spec fn fills_for(self, order: OrderView) -> Seq<FillView> {
        matched_fills(
            self.side(order.side.opposite()),
            order.side,
            order.price,
            order.quantity,
            self.last_trade_id,
        )
    }

    /// The book after the incoming order has traded and what is left of it
    /// has come to rest.
    pub open spec fn after_add(self, order: OrderView) -> BookView {
        let fills = self.fills_for(order);
        let executed = filled_quantity(fills);
        let makers = makers_after(
            self.side(order.side.opposite()),
            order.side,
            order.price,
            order.quantity,
        );
        let own = if executed < order.quantity {
            rested(order.side, self.side(order.side), order.fill(executed))
        } else {
            self.side(order.side)
        };
        match order.side {
            OrderSide::Buy => BookView {
                bids: own,
                asks: makers,
                last_trade_id: self.last_trade_id + fills.len(),
                ..self
            },
            OrderSide::Sell => BookView {
                bids: makers,
                asks: own,
                last_trade_id: self.last_trade_id + fills.len(),
                ..self
            },
        }
    }
}

impl View for Orderbook {
    type V = BookView;

    open spec fn view(&self) -> BookView {
        BookView {
            bids: order_views(self.bids@),
            asks: order_views(self.asks@),
            base_asset: self.base_asset@,
            quote_asset: self.quote_asset@,
            last_trade_id: self.last_trade_id as nat,
            current_price: self.current_price@,
        }
    }
}

/// The two sides of a book, told apart by the side of an incoming order.
pub open spec fn sides_wf(side: OrderSide, own: Seq<OrderView>, makers: Seq<OrderView>) -> bool {
    &&& all_resting(side, own)
    &&& all_resting(side.opposite(), makers)
    &&& priority_sorted(side, own)
    &&& priority_sorted(side.opposite(), makers)
    &&& distinct_ids(own)
    &&& distinct_ids(makers)
    &&& forall|i: int, j: int|
        0 <= i < own.len() && 0 <= j < makers.len() ==> (#[trigger] own[i]).order_id != (
        #[trigger] makers[j]).order_id
    &&& total_remaining(own) <= MAX_UNITS
    &&& total_remaining(makers) <= MAX_UNITS
}

/// Ids stay apart between a side on which `order` may have come to rest
/// at index `k` and a side whose orders carry ids that it held before.
proof fn lemma_ids_stay_apart(
    own: Seq<OrderView>,
    own_now: Seq<OrderView>,
    makers: Seq<OrderView>,
    makers_now: Seq<OrderView>,
    order: OrderView,
    k: int,
)
    requires
        forall|i: int, j: int|
            0 <= i < own.len() && 0 <= j < makers.len() ==> (#[trigger] own[i]).order_id != (
            #[trigger] makers[j]).order_id,
        !has_id(makers, order.order_id),
        own_now == own || (0 <= k <= own.len() && own_now == own.insert(k, order)),
        makers_now.len() <= makers.len(),
        forall|j: int|
            0 <= j < makers_now.len() ==> (#[trigger] makers_now[j]).order_id == makers[j
                + makers.len() - makers_now.len()].order_id,
    ensures
        forall|i: int, j: int|
            0 <= i < own_now.len() && 0 <= j < makers_now.len() ==> (#[trigger] own_now[i]).order_id
                != (#[trigger] makers_now[j]).order_id,
{
    assert forall|i: int, j: int|
        0 <= i < own_now.len() && 0 <= j < makers_now.len() implies (#[trigger] own_now[i]).order_id
        != (#[trigger] makers_now[j]).order_id by {
        let m = j + makers.len() - makers_now.len();
        assert(makers_now[j].order_id == makers[m].order_id);
        if own_now == own {
            assert(own_now[i] == own[i]);
        } else if i < k {
            assert(own_now[i] == own[i]);
        } else if i > k {
            assert(own_now[i] == own[i - 1]);
        } else {
            assert(own_now[i].order_id == order.order_id);
        }
    }
}

/// Matching and resting keep the two sides of a book well-formed.
#[verifier::rlimit(50)]
proof fn lemma_sides_after_add(
    own: Seq<OrderView>,
    makers: Seq<OrderView>,
    order: OrderView,
    next_id: nat,
)
    requires
        sides_wf(order.side, own, makers),
        order.valid(),
        order.filled == 0,
        !has_id(own, order.order_id),
        !has_id(makers, order.order_id),
        total_remaining(own) + order.quantity <= MAX_UNITS,
    ensures
        ({
            let fills = matched_fills(makers, order.side, order.price, order.quantity, next_id);
            let executed = filled_quantity(fills);
            let makers_now = makers_after(makers, order.side, order.price, order.quantity);
            let own_now = if executed < order.quantity {
                rested(order.side, own, order.fill(executed))
            } else {
                own
            };
            sides_wf(order.side, own_now, makers_now)
        }),
{
    let side = order.side;
    let fills = matched_fills(makers, side, order.price, order.quantity, next_id);
    let executed = filled_quantity(fills);
    let makers_now = makers_after(makers, side, order.price, order.quantity);
    let resting = order.fill(executed);
    let own_now = if executed < order.quantity {
        rested(side, own, resting)
    } else {
        own
    };
    lemma_makers_after_side(makers, side, order.price, order.quantity);
    let k = rest_index(side, own, order.price) as int;
    if executed < order.quantity {
        assert(resting.resting());
        assert(resting.price == order.price);
        assert(resting.order_id == order.order_id);
        lemma_rested_side(side, own, resting);
    }
    lemma_ids_stay_apart(own, own_now, makers, makers_now, resting, k);
}

/// Adding an order keeps a book well-formed.
pub proof fn lemma_after_add_wf(book: BookView, order: OrderView)
    requires
        book.wf(),
        book.accepts(order),
    ensures
        book.after_add(order).wf(),
{
    let own = book.side(order.side);
    let makers = book.side(order.side.opposite());
    assert(sides_wf(order.side, own, makers));
    lemma_sides_after_add(own, makers, order, book.last_trade_id);
}

/// Whether `maker_price` crosses the limit of an incoming order.
fn price_crosses(taker_side: OrderSide, limit: Amount, maker_price: Amount) -> (c: bool)
    ensures
        c == crosses(taker_side, limit@, maker_price@),
{
    match taker_side {
        OrderSide::Buy => maker_price.units <= limit.units,
        OrderSide::Sell => maker_price.units >= limit.units,
    }
}

/// Trades an incoming order against `makers`, the opposite side of the book.
#[verifier::rlimit(50)]
fn match_orders(
    makers: &mut Vec<Order>,
    taker_side: OrderSide,
    limit: Amount,
    quantity: Amount,
    last_trade_id: &mut u64,
) -> (result: OrderMatchResult)
    requires
        all_resting(taker_side.opposite(), order_views(old(makers)@)),
        quantity.wf(),
        *old(last_trade_id) + old(makers).len() <= u64::MAX,
    ensures
        fill_views(result.fills@) == matched_fills(
            order_views(old(makers)@),
            taker_side,
            limit@,
            quantity@,
            *old(last_trade_id) as nat,
        ),
        result.executed_qty@ == filled_quantity(fill_views(result.fills@)),
        result.executed_qty@ <= quantity@,
        order_views(final(makers)@) == makers_after(
            order_views(old(makers)@),
            taker_side,
            limit@,
            quantity@,
        ),
        *final(last_trade_id) == *old(last_trade_id) + result.fills.len(),
        result.fills.len() <= old(makers).len(),
{
    let ghost before = order_views(makers@);
    let ghost first_id = *last_trade_id as nat;
    let mut fills: Vec<Fill> = Vec::new();
    let mut executed = Amount::zero();
    let mut taken: usize = 0;
    let mut partial = Amount::zero();
    let mut done = false;
    assert(before.skip(0) =~= before);
    assert(fill_views(fills@) =~= Seq::<FillView>::empty());
    while !done && taken < makers.len()
        invariant
            order_views(makers@) == before,
            all_resting(taker_side.opposite(), before),
            taken <= makers.len(),
            quantity.wf(),
            executed@ <= quantity@,
            executed@ == filled_quantity(fill_views(fills@)),
            first_id + before.len() <= u64::MAX,
            *last_trade_id == first_id + fills.len(),
            fills.len() == taken + (if partial@ > 0 {
                1int
            } else {
                0int
            }),
            partial@ > 0 ==> done && taken < makers.len() && partial@ < before[taken as int].remaining(),
            matched_fills(before, taker_side, limit@, quantity@, first_id) == fill_views(fills@)
                + (if done {
                Seq::<FillView>::empty()
            } else {
                matched_fills(
                    before.skip(taken as int),
                    taker_side,
                    limit@,
                    (quantity@ - executed@) as nat,
                    (first_id + taken) as nat,
                )
            }),
            makers_after(before, taker_side, limit@, quantity@) == (if done {
                if partial@ > 0 {
                    before.skip(taken as int).update(0, before[taken as int].fill(partial@))
                } else {
                    before.skip(taken as int)
                }
            } else {
                makers_after(
                    before.skip(taken as int),
                    taker_side,
                    limit@,
                    (quantity@ - executed@) as nat,
                )
            }),
        decreases makers.len() - taken + (if done { 0int } else { 1int }),
    {
        let ghost rest = before.skip(taken as int);
        let ghost want = (quantity@ - executed@) as nat;
        assert(rest[0] == before[taken as int]);
        assert(before[taken as int] == makers@[taken as int]@);
        assert(before[taken as int].resting());
        assert(rest.skip(1) =~= before.skip(taken + 1));
        let maker = &makers[taken];
        if executed.units >= quantity.units || !price_crosses(taker_side, limit, maker.price) {
            done = true;
            assert(fill_views(fills@) + Seq::<FillView>::empty() =~= fill_views(fills@));
        } else {
            let available = maker.remaining();
            let wanted = Amount { units: quantity.units - executed.units };
            let take = wanted.min(available);
            let fill = Fill {
                price: maker.price,
                qty: take,
                trade_id: *last_trade_id,
                other_user_id: maker.user_id.clone(),
                marker_order_id: maker.order_id.clone(),
            };
            assert(fill@ == fill_against(rest[0], take@, (first_id + taken) as nat));
            let ghost fills_before = fill_views(fills@);
            fills.push(fill);
            assert(fill_views(fills@) =~= fills_before.push(fill@));
            assert(fill_views(fills@).drop_last() =~= fills_before);
            assert(fills_before + (seq![fill@] + matched_fills(
                rest.skip(1),
                taker_side,
                limit@,
                (want - take@) as nat,
                (first_id + taken + 1) as nat,
            )) =~= fill_views(fills@) + matched_fills(
                rest.skip(1),
                taker_side,
                limit@,
                (want - take@) as nat,
                (first_id + taken + 1) as nat,
            ));
            executed = Amount { units: executed.units + take.units };
            *last_trade_id = *last_trade_id + 1;
            if take.units < available.units {
                partial = take;
                done = true;
                assert(matched_fills(
                    rest.skip(1),
                    taker_side,
                    limit@,
                    0,
                    (first_id + taken + 1) as nat,
                ) =~= Seq::<FillView>::empty());
                assert(fill_views(fills@) + Seq::<FillView>::empty() =~= fill_views(fills@));
            } else {
                taken = taken + 1;
            }
        }
    }
    proof {
        if !done {
            assert(before.skip(taken as int) =~= Seq::<OrderView>::empty());
            assert(fill_views(fills@) + Seq::<FillView>::empty() =~= fill_views(fills@));
        }
    }
    if partial.units > 0 {
        let filled = Amount { units: makers[taken].filled.units + partial.units };
        makers[taken].filled = filled;
    }
    let rest = makers.split_off(taken);
    *makers = rest;
    proof {
        let expected = if partial@ > 0 {
            before.skip(taken as int).update(0, before[taken as int].fill(partial@))
        } else {
            before.skip(taken as int)
        };
        assert(order_views(makers@) =~= expected);
    }
    OrderMatchResult { executed_qty: executed, fills }
}

/// The name of the market that trades `base` against `quote`.
pub open spec fn ticker_of(base: Seq<char>, quote: Seq<char>) -> Seq<char> {
    base + seq!['_'] + quote
}

/// Whether price `a` outranks price `b` on the resting side `side`.
fn price_outranks(side: OrderSide, a: Amount, b: Amount) -> (o: bool)
    ensures
        o == outranks(side, a@, b@),
{
    match side {
        OrderSide::Buy => a.units > b.units,
        OrderSide::Sell => a.units < b.units,
    }
}

/// Puts `order` to rest among the orders of its side.
fn rest_order(orders: &mut Vec<Order>, order: Order)
    ensures
        order_views(final(orders)@) == rested(order.side, order_views(old(orders)@), order@),
{
    let ghost before = order_views(orders@);
    let mut k: usize = 0;
    assert(before.skip(0) =~= before);
    while k < orders.len() && !price_outranks(order.side, order.price, orders[k].price)
        invariant
            k <= orders.len(),
            order_views(orders@) == before,
            rest_index(order.side, before, order.price@) == k + rest_index(
                order.side,
                before.skip(k as int),
                order.price@,
            ),
        decreases orders.len() - k,
    {
        assert(before.skip(k as int)[0] == orders@[k as int]@);
        assert(before.skip(k as int).skip(1) =~= before.skip(k + 1));
        k = k + 1;
    }
    proof {
        if k < orders.len() {
            assert(before.skip(k as int)[0] == orders@[k as int]@);
        }
    }
    orders.insert(k, order);
    assert(order_views(orders@) =~= before.insert(k as int, order@));
}

/// A copy of the orders.
fn clone_orders(orders: &Vec<Order>) -> (copy: Vec<Order>)
    ensures
        copy@ == orders@,
{
    let mut copy: Vec<Order> = Vec::new();
    let mut i: usize = 0;
    while i < orders.len()
        invariant
            i <= orders.len(),
            copy@ == orders@.take(i as int),
        decreases orders.len() - i,
    {
        copy.push(orders[i].clone());
        assert(copy@ =~= orders@.take(i + 1));
        i = i + 1;
    }
    assert(orders@.take(orders.len() as int) =~= orders@);
    copy
}

/// The index of the first order that carries the id.
fn find_position(orders: &Vec<Order>, order_id: &String) -> (found: Option<usize>)
    ensures
        match found {
            Some(k) => k < orders.len() && k == first_with_id(order_views(orders@), order_id@),
            None => first_with_id(order_views(orders@), order_id@) == orders.len(),
        },
{
    let ghost views = order_views(orders@);
    let mut k: usize = 0;
    assert(views.skip(0) =~= views);
    while k < orders.len()
        invariant
            k <= orders.len(),
            views == order_views(orders@),
            first_with_id(views, order_id@) == k + first_with_id(views.skip(k as int), order_id@),
        decreases orders.len() - k,
    {
        assert(views.skip(k as int)[0] == orders@[k as int]@);
        if orders[k].order_id == *order_id {
            return Some(k);
        }
        assert(views.skip(k as int).skip(1) =~= views.skip(k + 1));
        k = k + 1;
    }
    None
}

/// Takes the order with the id of `order` out of `orders`.
fn cancel_in(orders: &mut Vec<Order>, order_id: &String) -> (removed: Option<Order>)
    ensures
        ({
            let before = order_views(old(orders)@);
            let k = first_with_id(before, order_id@) as int;
            match removed {
                Some(order) => {
                    &&& k < before.len()
                    &&& order@ == before[k]
                    &&& order_views(final(orders)@) == before.remove(k)
                },
                None => !has_id(before, order_id@) && final(orders)@ == old(orders)@,
            }
        }),
{
    proof {
        lemma_first_with_id(order_views(orders@), order_id@);
    }
    match find_position(orders, order_id) {
        Some(k) => {
            let ghost before = order_views(orders@);
            let order = orders.remove(k);
            assert(order_views(orders@) =~= before.remove(k as int));
            Some(order)
        },
        None => None,
    }
}

/// The quantity left to trade over the orders priced `price`.
fn level_quantity(orders: &Vec<Order>, price: Amount) -> (total: Amount)
    requires
        forall|i: int| 0 <= i < orders.len() ==> (#[trigger] orders@[i])@.valid(),
        total_remaining(order_views(orders@)) <= MAX_UNITS,
    ensures
        total@ == level_total(order_views(orders@), price@),
        total.wf(),
{
    let ghost views = order_views(orders@);
    let mut total = Amount::zero();
    let mut i: usize = 0;
    assert(views.take(0) =~= Seq::<OrderView>::empty());
    while i < orders.len()
        invariant
            i <= orders.len(),
            views == order_views(orders@),
            forall|j: int| 0 <= j < orders.len() ==> (#[trigger] orders@[j])@.valid(),
            total_remaining(views) <= MAX_UNITS,
            total@ == level_total(views.take(i as int), price@),
        decreases orders.len() - i,
    {
        proof {
            assert(views.take(i + 1).drop_last() =~= views.take(i as int));
            assert(views.take(i + 1).last() == orders@[i as int]@);
            lemma_level_total_bounded(views.take(i + 1), price@);
            lemma_total_remaining_split(views, i + 1);
        }
        if orders[i].price.units == price.units {
            let left = orders[i].remaining();
            total = Amount { units: total.units + left.units };
        }
        i = i + 1;
    }
    proof {
        assert(views.take(orders.len() as int) =~= views);
        lemma_level_total_bounded(views, price@);
    }
    total
}

/// The views of a sequence of levels.
pub open spec fn level_views(levels: Seq<(Amount, Amount)>) -> Seq<(nat, nat)> {
    levels.map_values(|l: (Amount, Amount)| (l.0@, l.1@))
}

/// The depth of one side as amounts.
#[verifier::rlimit(50)]
fn depth_levels(orders: &Vec<Order>) -> (levels: Vec<(Amount, Amount)>)
    requires
        forall|i: int| 0 <= i < orders.len() ==> (#[trigger] orders@[i])@.valid(),
        total_remaining(order_views(orders@)) <= MAX_UNITS,
    ensures
        level_views(levels@) == depth_of(order_views(orders@)),
        forall|j: int| 0 <= j < levels.len() ==> (#[trigger] levels[j]).0.wf() && levels[j].1.wf(),
{
    let ghost views = order_views(orders@);
    let mut levels: Vec<(Amount, Amount)> = Vec::new();
    let mut i: usize = 0;
    assert(views.take(0) =~= Seq::<OrderView>::empty());
    assert(level_views(levels@) =~= depth_of(views.take(0)));
    while i < orders.len()
        invariant
            i <= orders.len(),
            views == order_views(orders@),
            forall|j: int| 0 <= j < orders.len() ==> (#[trigger] orders@[j])@.valid(),
            total_remaining(views) <= MAX_UNITS,
            level_views(levels@) == depth_of(
                views.take(i as int),
            ),
            forall|j: int|
                0 <= j < levels.len() ==> (#[trigger] levels[j]).0.wf() && levels[j].1.wf(),
        decreases orders.len() - i,
    {
        let ghost seen = views.take(i as int);
        let ghost next = views.take(i + 1);
        let ghost before = levels@;
        let price = orders[i].price;
        let left = orders[i].remaining();
        proof {
            assert(next.drop_last() =~= seen);
            assert(next.last() == orders@[i as int]@);
            assert(next.last().price == price@);
            lemma_level_prices(seen);
            lemma_level_prices(next);
            lemma_total_remaining_split(views, i + 1);
            assert(level_views(levels@).len() == depth_of(seen).len());
            assert(levels.len() == level_prices(seen).len());
            assert forall|j: int| 0 <= j < levels.len() implies (#[trigger] levels[j]).0@
                == level_prices(seen)[j] && levels[j].1@ == level_total(
                seen,
                level_prices(seen)[j],
            ) by {
                assert(level_views(levels@)[j] == depth_of(seen)[j]);
            }
        }
        let mut j: usize = 0;
        while j < levels.len() && levels[j].0.units != price.units
            invariant
                j <= levels.len(),
                levels@ == before,
                forall|m: int| 0 <= m < j ==> (#[trigger] levels[m]).0@ != price@,
            decreases levels.len() - j,
        {
            j = j + 1;
        }
        if j < levels.len() {
            proof {
                assert(level_prices(seen)[j as int] == price@);
                assert(level_prices(seen).contains(price@));
                lemma_level_total_bounded(next, price@);
            }
            let sum = Amount { units: levels[j].1.units + left.units };
            levels[j] = (price, sum);
            proof {
                assert(level_prices(next) == level_prices(seen));
                assert forall|m: int| 0 <= m < levels.len() implies (#[trigger] levels[m]).0@
                    == level_prices(next)[m] && levels[m].1@ == level_total(
                    next,
                    level_prices(next)[m],
                ) by {
                    if m != j {
                        assert(levels[m] == before[m]);
                        assert(level_prices(seen)[m] != level_prices(seen)[j as int]);
                    }
                }
            }
        } else {
            proof {
                if level_prices(seen).contains(price@) {
                    let m = choose|m: int|
                        0 <= m < level_prices(seen).len() && level_prices(seen)[m] == price@;
                    assert(levels[m].0@ == price@);
                }
                assert(level_prices(next) == level_prices(seen).push(price@));
                assert forall|m: int| 0 <= m < seen.len() implies (#[trigger] seen[m]).price
                    != price@ by {
                    assert(level_prices(seen).contains(seen[m].price));
                }
                lemma_level_total_absent(seen, price@);
            }
            levels.push((price, left));
            proof {
                assert forall|m: int| 0 <= m < levels.len() implies (#[trigger] levels[m]).0@
                    == level_prices(next)[m] && levels[m].1@ == level_total(
                    next,
                    level_prices(next)[m],
                ) by {
                    if m < before.len() {
                        assert(levels[m] == before[m]);
                    }
                }
            }
        }
        assert(level_views(levels@) =~= depth_of(next));
        i = i + 1;
    }
    assert(views.take(orders.len() as int) =~= views);
    levels
}

/// The depth as text: each level's price and quantity.
pub open spec fn depth_text(levels: Seq<(nat, nat)>) -> Seq<(Seq<char>, Seq<char>)> {
    levels.map_values(|l: (nat, nat)| (amount_text(l.0), amount_text(l.1)))
}

/// The views of a sequence of pairs of texts.
pub open spec fn text_pairs(pairs: Seq<(String, String)>) -> Seq<(Seq<char>, Seq<char>)> {
    pairs.map_values(|p: (String, String)| (p.0@, p.1@))
}

/// Writes the levels out as text.
fn levels_to_text(levels: &Vec<(Amount, Amount)>) -> (text: Vec<(String, String)>)
    requires
        forall|j: int| 0 <= j < levels.len() ==> (#[trigger] levels[j]).0.wf() && levels[j].1.wf(),
    ensures
        text_pairs(text@) == depth_text(level_views(levels@)),
{
    let mut text: Vec<(String, String)> = Vec::new();
    let mut i: usize = 0;
    let ghost plain = level_views(levels@);
    assert(text_pairs(text@) =~= depth_text(plain).take(0));
    while i < levels.len()
        invariant
            i <= levels.len(),
            plain == level_views(levels@),
            forall|j: int|
                0 <= j < levels.len() ==> (#[trigger] levels[j]).0.wf() && levels[j].1.wf(),
            text_pairs(text@) =~= depth_text(plain).take(i as int),
        decreases levels.len() - i,
    {
        let price = levels[i].0.to_string();
        let quantity = levels[i].1.to_string();
        let ghost written = text@;
        text.push((price, quantity));
        proof {
            assert(plain[i as int] == (levels[i as int].0@, levels[i as int].1@));
            assert(text_pairs(text@) =~= text_pairs(written).push((price@, quantity@)));
            assert(depth_text(plain).take(i + 1) =~= depth_text(plain).take(i as int).push(
                depth_text(plain)[i as int],
            ));
        }
        i = i + 1;
    }
    assert(depth_text(plain).take(levels.len() as int) =~= depth_text(plain));
    text
}

/// Taking an order out keeps a book well-formed.
pub proof fn lemma_without_wf(book: BookView, side: OrderSide, id: Seq<char>)
    requires
        book.wf(),
    ensures
        book.without(side, id).wf(),
{
    let orders = book.side(side);
    let k = first_with_id(orders, id) as int;
    lemma_first_with_id(orders, id);
    if k < orders.len() {
        lemma_removed_side(side, orders, k);
        let after = orders.remove(k);
        let other = book.side(side.opposite());
        assert forall|i: int, j: int|
            0 <= i < after.len() && 0 <= j < other.len() implies (#[trigger] after[i]).order_id != (
            #[trigger] other[j]).order_id by {
            let a = if i < k { i } else { i + 1 };
            assert(after[i] == orders[a]);
        }
    }
}

/// The quantity left to trade over all the orders.
fn resting_quantity(orders: &Vec<Order>) -> (total: Amount)
    requires
        forall|i: int| 0 <= i < orders.len() ==> (#[trigger] orders@[i])@.valid(),
        total_remaining(order_views(orders@)) <= MAX_UNITS,
    ensures
        total@ == total_remaining(order_views(orders@)),
        total.wf(),
{
    let ghost views = order_views(orders@);
    let mut total = Amount::zero();
    let mut i: usize = 0;
    assert(views.take(0) =~= Seq::<OrderView>::empty());
    while i < orders.len()
        invariant
            i <= orders.len(),
            views == order_views(orders@),
            forall|j: int| 0 <= j < orders.len() ==> (#[trigger] orders@[j])@.valid(),
            total_remaining(views) <= MAX_UNITS,
            total@ == total_remaining(views.take(i as int)),
        decreases orders.len() - i,
    {
        proof {
            assert(views.take(i + 1).drop_last() =~= views.take(i as int));
            assert(views.take(i + 1).last() == orders@[i as int]@);
            lemma_total_remaining_split(views, i + 1);
        }
        let left = orders[i].remaining();
        total = Amount { units: total.units + left.units };
        i = i + 1;
    }
    assert(views.take(orders.len() as int) =~= views);
    total
}

/// Whether each order rests on side `side`, in priority order, and the
/// quantity resting is within range.
#[verifier::rlimit(50)]
fn check_resting(orders: &Vec<Order>, side: OrderSide) -> (ok: bool)
    ensures
        ok == (all_resting(side, order_views(orders@)) && priority_sorted(
            side,
            order_views(orders@),
        ) && total_remaining(order_views(orders@)) <= MAX_UNITS),
{
    let ghost views = order_views(orders@);
    let mut total: u128 = 0;
    let mut i: usize = 0;
    assert(views.take(0) =~= Seq::<OrderView>::empty());
    while i < orders.len()
        invariant
            i <= orders.len(),
            views == order_views(orders@),
            all_resting(side, views.take(i as int)),
            priority_sorted(side, views.take(i as int)),
            total == total_remaining(views.take(i as int)),
            total <= MAX_UNITS,
        decreases orders.len() - i,
    {
        let order = &orders[i];
        let ghost seen = views.take(i as int);
        let ghost next = views.take(i + 1);
        proof {
            assert(next.drop_last() =~= seen);
            assert(next.last() == order@);
            assert(views[i as int] == order@);
            lemma_total_remaining_split(views, i + 1);
        }
        let resting = 0 < order.price.units && order.price.units <= MAX_UNITS && 0
            < order.quantity.units && order.quantity.units <= MAX_UNITS && order.filled.units
            < order.quantity.units;
        let on_side = match (side, order.side) {
            (OrderSide::Buy, OrderSide::Buy) => true,
            (OrderSide::Sell, OrderSide::Sell) => true,
            _ => false,
        };
        if !resting || !on_side {
            return false;
        }
        if i > 0 && price_outranks(side, order.price, orders[i - 1].price) {
            assert(views[i - 1] == orders@[i - 1]@);
            return false;
        }
        let left = order.quantity.units - order.filled.units;
        if total + left > MAX_UNITS {
            return false;
        }
        total = total + left;
        proof {
            assert forall|j: int| 0 <= j < next.len() implies (#[trigger] next[j]).resting()
                && next[j].side == side by {
                if j < i {
                    assert(next[j] == seen[j]);
                }
            }
            assert forall|a: int, b: int| 0 <= a < b < next.len() implies !outranks(
                side,
                (#[trigger] next[b]).price,
                (#[trigger] next[a]).price,
            ) by {
                if b < i {
                    assert(next[a] == seen[a]);
                    assert(next[b] == seen[b]);
                } else {
                    assert(views[i - 1] == orders@[i - 1]@);
                    assert(seen[i - 1] == views[i - 1]);
                    assert(next[a] == seen[a]);
                    if a < i - 1 {
                        assert(!outranks(side, seen[i - 1].price, seen[a].price));
                    }
                }
            }
        }
        i = i + 1;
    }
    assert(views.take(orders.len() as int) =~= views);
    true
}

/// Whether no id occurs twice among the orders.
fn check_distinct(orders: &Vec<Order>) -> (ok: bool)
    ensures
        ok == distinct_ids(order_views(orders@)),
{
    let ghost views = order_views(orders@);
    let mut i: usize = 0;
    while i < orders.len()
        invariant
            i <= orders.len(),
            views == order_views(orders@),
            forall|a: int, b: int|
                0 <= a < b < views.len() && b < i ==> (#[trigger] views[a]).order_id != (
                #[trigger] views[b]).order_id,
        decreases orders.len() - i,
    {
        proof {
            lemma_first_with_id(views, orders@[i as int].order_id@);
            assert(views[i as int] == orders@[i as int]@);
        }
        match find_position(orders, &orders[i].order_id) {
            Some(k) => {
                if k != i {
                    return false;
                }
            },
            None => {
                return false;
            },
        }
        i = i + 1;
    }
    true
}

/// Whether no order of `orders` carries an id that one of `others` carries.
fn check_apart(orders: &Vec<Order>, others: &Vec<Order>) -> (ok: bool)
    ensures
        ok == (forall|i: int, j: int|
            0 <= i < orders.len() && 0 <= j < others.len() ==> (#[trigger] order_views(
                orders@,
            )[i]).order_id != (#[trigger] order_views(others@)[j]).order_id),
{
    let ghost views = order_views(orders@);
    let ghost other_views = order_views(others@);
    let mut i: usize = 0;
    while i < orders.len()
        invariant
            i <= orders.len(),
            views == order_views(orders@),
            other_views == order_views(others@),
            forall|a: int, b: int|
                0 <= a < i && 0 <= b < other_views.len() ==> (#[trigger] views[a]).order_id != (
                #[trigger] other_views[b]).order_id,
        decreases orders.len() - i,
    {
        proof {
            lemma_first_with_id(other_views, orders@[i as int].order_id@);
            assert(views[i as int] == orders@[i as int]@);
        }
        if find_position(others, &orders[i].order_id).is_some() {
            return false;
        }
        i = i + 1;
    }
    true
}

impl Orderbook {
    /// Whether the book is well-formed.
    pub open spec fn wf(&self) -> bool {
        self@.wf()
    }

    /// Whether the book is well-formed, checked on the book as it stands.
    pub fn is_well_formed(&self) -> (ok: bool)
        ensures
            ok == self@.wf(),
    {
        check_resting(&self.bids, OrderSide::Buy) && check_resting(&self.asks, OrderSide::Sell)
            && check_distinct(&self.bids) && check_distinct(&self.asks) && check_apart(
            &self.bids,
            &self.asks,
        ) && self.current_price.units <= MAX_UNITS
    }

    /// A book for the market of `base_asset` against the base currency.
    pub fn new(
        base_asset: String,
        bids: Vec<Order>,
        asks: Vec<Order>,
        last_trade_id: u64,
        current_price: Amount,
    ) -> (book: Self)
        ensures
            book.bids == bids,
            book.asks == asks,
            book.base_asset == base_asset,
            book.quote_asset@ == BASE_CURRENCY@,
            book.last_trade_id == last_trade_id,
            book.current_price == current_price,
    {
        Self {
            bids,
            asks,
            base_asset,
            quote_asset: BASE_CURRENCY.to_string(),
            last_trade_id,
            current_price,
        }
    }

    /// The market's name: base asset, an underscore, quote asset.
    pub fn ticker(&self) -> (name: String)
        ensures
            name@ == ticker_of(self.base_asset@, self.quote_asset@),
    {
        let mut name = self.base_asset.clone();
        proof {
            reveal_strlit("_");
            assert("_"@ =~= seq!['_']);
        }
        name.append("_");
        name.append(self.quote_asset.as_str());
        name
    }

    /// A copy of the book as it stands.
    pub fn get_snapshot(&self) -> (copy: Self)
        ensures
            copy@ == self@,
            copy.bids@ == self.bids@,
            copy.asks@ == self.asks@,
    {
        let copy = Orderbook {
            bids: clone_orders(&self.bids),
            asks: clone_orders(&self.asks),
            base_asset: self.base_asset.clone(),
            quote_asset: self.quote_asset.clone(),
            last_trade_id: self.last_trade_id,
            current_price: self.current_price,
        };
        copy
    }

    /// Matches the incoming order against the opposite side, best price
    /// first and first come first served, and puts what is left of it to
    /// rest on its own side.
    #[verifier::rlimit(50)]
    pub fn add_order(&mut self, order: Order) -> (result: OrderMatchResult)
        requires
            old(self)@.wf(),
            old(self)@.accepts(order@),
        ensures
            final(self)@ == old(self)@.after_add(order@),
            final(self)@.wf(),
            fill_views(result.fills@) == old(self)@.fills_for(order@),
            result.executed_qty@ == filled_quantity(fill_views(result.fills@)),
            result.executed_qty@ <= order.quantity@,
            fills_wf(result.fills@),
    {
        let mut order = order;
        let ghost incoming = order@;
        let ghost before = self@;
        let result = match order.side {
            OrderSide::Buy => self.match_bid(&order),
            OrderSide::Sell => self.match_ask(&order),
        };
        order.filled = result.executed_qty;
        assert(order@ == incoming.fill(result.executed_qty@));
        if order.filled.units < order.quantity.units {
            match order.side {
                OrderSide::Buy => rest_order(&mut self.bids, order),
                OrderSide::Sell => rest_order(&mut self.asks, order),
            }
        }
        proof {
            let after = before.after_add(incoming);
            assert(self@.bids == after.bids);
            assert(self@.asks == after.asks);
            assert(self@ == after);
            lemma_after_add_wf(before, incoming);
            let makers = before.side(incoming.side.opposite());
            lemma_matching(
                makers,
                incoming.side,
                incoming.price,
                incoming.quantity,
                before.last_trade_id,
            );
            assert forall|i: int| 0 <= i < result.fills.len() implies (#[trigger] result.fills[i]).price.wf()
                && result.fills[i].qty.wf() by {
                assert(fill_views(result.fills@)[i] == result.fills[i]@);
                assert(makers[i].resting());
            }
        }
        result
    }

    /// The depth of the book: for each side, each price at which an order
    /// rests with the quantity left to trade at it, both as text.
    pub fn get_depth(&self) -> (depth: (Vec<(String, String)>, Vec<(String, String)>))
        requires
            self@.wf(),
        ensures
            text_pairs(depth.0@) == depth_text(depth_of(self@.bids)),
            text_pairs(depth.1@) == depth_text(depth_of(self@.asks)),
    {
        proof {
            assert forall|i: int| 0 <= i < self.bids.len() implies (#[trigger] self.bids@[i])@.valid() by {
                assert(self@.bids[i] == self.bids@[i]@);
            }
            assert forall|i: int| 0 <= i < self.asks.len() implies (#[trigger] self.asks@[i])@.valid() by {
                assert(self@.asks[i] == self.asks@[i]@);
            }
        }
        let bids = depth_levels(&self.bids);
        let asks = depth_levels(&self.asks);
        (levels_to_text(&bids), levels_to_text(&asks))
    }

    /// The quantity left to trade on side `side` at `price`.
    pub fn level_total_at(&self, side: OrderSide, price: Amount) -> (total: Amount)
        requires
            self@.wf(),
        ensures
            total@ == level_total(self@.side(side), price@),
            total.wf(),
    {
        proof {
            assert forall|i: int| 0 <= i < self.bids.len() implies (#[trigger] self.bids@[i])@.valid() by {
                assert(self@.bids[i] == self.bids@[i]@);
            }
            assert forall|i: int| 0 <= i < self.asks.len() implies (#[trigger] self.asks@[i])@.valid() by {
                assert(self@.asks[i] == self.asks@[i]@);
            }
        }
        match side {
            OrderSide::Buy => level_quantity(&self.bids, price),
            OrderSide::Sell => level_quantity(&self.asks, price),
        }
    }

    /// The orders of `user_id` with quantity left to trade, asks before bids.
    #[verifier::rlimit(50)]
    pub fn get_open_orders(&self, user_id: &str) -> (orders: Vec<Order>)
        ensures
            order_views(orders@) == open_orders_of(self@, user_id@),
    {
        let user = user_id.to_string();
        let ghost wanted = |o: OrderView| open_for(o, user_id@);
        let mut orders: Vec<Order> = Vec::new();
        let mut i: usize = 0;
        assert(self@.asks.take(0) =~= Seq::<OrderView>::empty());
        assert(order_views(orders@) =~= self@.asks.take(0).filter(wanted)) by {
            self@.asks.take(0).lemma_filter_len(wanted);
        }
        while i < self.asks.len()
            invariant
                i <= self.asks.len(),
                user@ == user_id@,
                wanted == (|o: OrderView| open_for(o, user_id@)),
                order_views(orders@) == self@.asks.take(i as int).filter(wanted),
            decreases self.asks.len() - i,
        {
            let order = &self.asks[i];
            let ghost found = order_views(orders@);
            proof {
                assert(self@.asks.take(i + 1) =~= self@.asks.take(i as int).push(order@));
                self@.asks.take(i as int).lemma_filter_push(order@, wanted);
            }
            if order.user_id == user && order.filled.units < order.quantity.units {
                orders.push(order.clone());
                assert(order_views(orders@) =~= found.push(order@));
            }
            i = i + 1;
        }
        let ghost asks_found = order_views(orders@);
        assert(self@.asks.take(self.asks.len() as int) =~= self@.asks);
        let mut j: usize = 0;
        assert(self@.bids.take(0) =~= Seq::<OrderView>::empty());
        assert(order_views(orders@) =~= asks_found + self@.bids.take(0).filter(wanted)) by {
            self@.bids.take(0).lemma_filter_len(wanted);
        }
        while j < self.bids.len()
            invariant
                j <= self.bids.len(),
                user@ == user_id@,
                wanted == (|o: OrderView| open_for(o, user_id@)),
                order_views(orders@) == asks_found + self@.bids.take(j as int).filter(wanted),
            decreases self.bids.len() - j,
        {
            let order = &self.bids[j];
            let ghost found = order_views(orders@);
            proof {
                assert(self@.bids.take(j + 1) =~= self@.bids.take(j as int).push(order@));
                self@.bids.take(j as int).lemma_filter_push(order@, wanted);
            }
            if order.user_id == user && order.filled.units < order.quantity.units {
                orders.push(order.clone());
                assert(order_views(orders@) =~= found.push(order@));
                assert(found.push(order@) =~= asks_found + self@.bids.take(j as int).filter(
                    wanted,
                ).push(order@));
            }
            j = j + 1;
        }
        assert(self@.bids.take(self.bids.len() as int) =~= self@.bids);
        orders
    }

    /// The resting order that carries the id, bids searched before asks.
    pub fn find_order(&self, order_id: &String) -> (found: Option<Order>)
        ensures
            match found {
                Some(order) => self@.order_with(order_id@) == Some(order@),
                None => self@.order_with(order_id@) is None,
            },
            found is Some <==> self@.holds(order_id@),
    {
        proof {
            lemma_first_with_id(self@.bids, order_id@);
            lemma_first_with_id(self@.asks, order_id@);
        }
        match find_position(&self.bids, order_id) {
            Some(k) => Some(self.bids[k].clone()),
            None => match find_position(&self.asks, order_id) {
                Some(k) => Some(self.asks[k].clone()),
                None => None,
            },
        }
    }

    /// Takes the bid with the id of `order` out of the book and gives its
    /// price.
    pub fn cancel_bid(&mut self, order: &Order) -> (price: Option<Amount>)
        ensures
            final(self)@ == old(self)@.without(OrderSide::Buy, order.order_id@),
            match price {
                Some(p) => has_id(old(self)@.bids, order.order_id@) && p@ == old(self)@.bids[first_with_id(
                    old(self)@.bids,
                    order.order_id@,
                ) as int].price,
                None => !has_id(old(self)@.bids, order.order_id@),
            },
            old(self)@.wf() ==> final(self)@.wf(),
    {
        proof {
            lemma_first_with_id(self@.bids, order.order_id@);
            if self@.wf() {
                lemma_without_wf(self@, OrderSide::Buy, order.order_id@);
            }
        }
        match cancel_in(&mut self.bids, &order.order_id) {
            Some(removed) => Some(removed.price),
            None => None,
        }
    }

    /// Takes the ask with the id of `order` out of the book and gives its
    /// price.
    pub fn cancel_ask(&mut self, order: &Order) -> (price: Option<Amount>)
        ensures
            final(self)@ == old(self)@.without(OrderSide::Sell, order.order_id@),
            match price {
                Some(p) => has_id(old(self)@.asks, order.order_id@) && p@ == old(self)@.asks[first_with_id(
                    old(self)@.asks,
                    order.order_id@,
                ) as int].price,
                None => !has_id(old(self)@.asks, order.order_id@),
            },
            old(self)@.wf() ==> final(self)@.wf(),
    {
        proof {
            lemma_first_with_id(self@.asks, order.order_id@);
            if self@.wf() {
                lemma_without_wf(self@, OrderSide::Sell, order.order_id@);
            }
        }
        match cancel_in(&mut self.asks, &order.order_id) {
            Some(removed) => Some(removed.price),
            None => None,
        }
    }

    /// Takes the resting order with the id out of the book, bids searched
    /// before asks, and gives its side and price.
    pub fn cancel(&mut self, order_id: &String) -> (found: Option<(OrderSide, Amount)>)
        requires
            old(self)@.wf(),
        ensures
            match old(self)@.order_with(order_id@) {
                Some(order) => found == Some((order.side, Amount { units: order.price as u128 }))
                    && final(self)@ == old(self)@.without(order.side, order_id@),
                None => found is None && final(self)@ == old(self)@,
            },
            final(self)@.wf(),
    {
        proof {
            lemma_first_with_id(self@.bids, order_id@);
            lemma_first_with_id(self@.asks, order_id@);
            lemma_without_wf(self@, OrderSide::Buy, order_id@);
            lemma_without_wf(self@, OrderSide::Sell, order_id@);
        }
        match cancel_in(&mut self.bids, order_id) {
            Some(removed) => Some((OrderSide::Buy, removed.price)),
            None => match cancel_in(&mut self.asks, order_id) {
                Some(removed) => Some((OrderSide::Sell, removed.price)),
                None => None,
            },
        }
    }

    /// Whether the book can take the incoming order.
    pub fn accepts(&self, order: &Order) -> (ok: bool)
        requires
            self@.wf(),
        ensures
            ok == self@.accepts(order@),
    {
        proof {
            lemma_first_with_id(self@.bids, order.order_id@);
            lemma_first_with_id(self@.asks, order.order_id@);
        }
        let valid = 0 < order.price.units && order.price.units <= MAX_UNITS && 0
            < order.quantity.units && order.quantity.units <= MAX_UNITS && order.filled.units
            == 0;
        if !valid {
            return false;
        }
        if find_position(&self.bids, &order.order_id).is_some() {
            return false;
        }
        if find_position(&self.asks, &order.order_id).is_some() {
            return false;
        }
        let (own, makers) = match order.side {
            OrderSide::Buy => (&self.bids, &self.asks),
            OrderSide::Sell => (&self.asks, &self.bids),
        };
        if makers.len() as u64 > u64::MAX - self.last_trade_id {
            return false;
        }
        proof {
            assert forall|i: int| 0 <= i < own.len() implies (#[trigger] own@[i])@.valid() by {
                assert(order_views(own@)[i] == own@[i]@);
            }
        }
        let resting = resting_quantity(own);
        resting.units + order.quantity.units <= MAX_UNITS
    }

    /// Trades an incoming buy order against the asks.
    fn match_bid(&mut self, order: &Order) -> (result: OrderMatchResult)
        requires
            all_resting(OrderSide::Sell, old(self)@.asks),
            order.quantity.wf(),
            old(self).last_trade_id + old(self).asks.len() <= u64::MAX,
        ensures
            fill_views(result.fills@) == matched_fills(
                old(self)@.asks,
                OrderSide::Buy,
                order.price@,
                order.quantity@,
                old(self)@.last_trade_id,
            ),
            result.executed_qty@ == filled_quantity(fill_views(result.fills@)),
            result.executed_qty@ <= order.quantity@,
            final(self)@ == (BookView {
                asks: makers_after(
                    old(self)@.asks,
                    OrderSide::Buy,
                    order.price@,
                    order.quantity@,
                ),
                last_trade_id: (old(self)@.last_trade_id + result.fills.len()) as nat,
                ..old(self)@
            }),
    {
        match_orders(
            &mut self.asks,
            OrderSide::Buy,
            order.price,
            order.quantity,
            &mut self.last_trade_id,
        )
    }

    /// Trades an incoming sell order against the bids.
    fn match_ask(&mut self, order: &Order) -> (result: OrderMatchResult)
        requires
            all_resting(OrderSide::Buy, old(self)@.bids),
            order.quantity.wf(),
            old(self).last_trade_id + old(self).bids.len() <= u64::MAX,
        ensures
            fill_views(result.fills@) == matched_fills(
                old(self)@.bids,
                OrderSide::Sell,
                order.price@,
                order.quantity@,
                old(self)@.last_trade_id,
            ),
            result.executed_qty@ == filled_quantity(fill_views(result.fills@)),
            result.executed_qty@ <= order.quantity@,
            final(self)@ == (BookView {
                bids: makers_after(
                    old(self)@.bids,
                    OrderSide::Sell,
                    order.price@,
                    order.quantity@,
                ),
                last_trade_id: (old(self)@.last_trade_id + result.fills.len()) as nat,
                ..old(self)@
            }),
    {
        match_orders(
            &mut self.bids,
            OrderSide::Sell,
            order.price,
            order.quantity,
            &mut self.last_trade_id,
        )
    }
}

} // verus!
