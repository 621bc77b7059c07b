use vstd::prelude::*;
use crate::price_level::{Level, PriceLevel};
use crate::types::{Order, OrderId, OrderResult, Price, Side, Trade, with_quantity};

verus! {

/// The contents of an order book: both sides as sequences of price levels in
/// ascending price order, and the trades executed so far.
pub struct BookView {
    pub bids: Seq<Level>,
    pub asks: Seq<Level>,
    pub trades: Seq<Trade>,
}

/// The levels a sequence of `PriceLevel`s holds.
pub open spec fn levels_view(v: Seq<PriceLevel>) -> Seq<Level> {
    v.map_values(|l: PriceLevel| l@)
}

pub open spec fn opposite(side: Side) -> Side {
    match side {
        Side::Bid => Side::Ask,
        Side::Ask => Side::Bid,
    }
}

pub open spec fn side_levels(b: BookView, side: Side) -> Seq<Level> {
    match side {
        Side::Bid => b.bids,
        Side::Ask => b.asks,
    }
}

pub open spec fn with_side_levels(b: BookView, side: Side, levels: Seq<Level>) -> BookView {
    match side {
        Side::Bid => BookView { bids: levels, ..b },
        Side::Ask => BookView { asks: levels, ..b },
    }
}

/// Prices strictly increase along the sequence.
pub open spec fn ascending(levels: Seq<Level>) -> bool {
    forall|i: int, j: int| 0 <= i < j < levels.len() ==> levels[i].price < levels[j].price
}

/// A well-formed side: ascending prices, no empty level, and every order
/// rests at its own price on its own side.
pub open spec fn levels_valid(levels: Seq<Level>, side: Side) -> bool {
    &&& ascending(levels)
    &&& forall|li: int| 0 <= li < levels.len() ==> #[trigger] levels[li].orders.len() > 0
    &&& forall|li: int, k: int|
        0 <= li < levels.len() && 0 <= k < levels[li].orders.len() ==> {
            &&& (#[trigger] levels[li].orders[k]).price == levels[li].price
            &&& levels[li].orders[k].side == side
        }
}

/// No order id occurs twice in `levels`.
pub open spec fn ids_unique(levels: Seq<Level>) -> bool {
    forall|l1: int, k1: int, l2: int, k2: int|
        0 <= l1 < levels.len() && 0 <= k1 < levels[l1].orders.len() && 0 <= l2 < levels.len() && 0
            <= k2 < levels[l2].orders.len() && #[trigger] levels[l1].orders[k1].id
            == #[trigger] levels[l2].orders[k2].id ==> l1 == l2 && k1 == k2
}

/// No order id occurs in both `a` and `b`.
pub open spec fn ids_disjoint(a: Seq<Level>, b: Seq<Level>) -> bool {
    forall|l1: int, k1: int, l2: int, k2: int|
        0 <= l1 < a.len() && 0 <= k1 < a[l1].orders.len() && 0 <= l2 < b.len() && 0 <= k2
            < b[l2].orders.len() ==> #[trigger] a[l1].orders[k1].id != #[trigger] b[l2].orders[k2].id
}

/// A well-formed book: both sides well formed, every id at most once.
pub open spec fn book_valid(b: BookView) -> bool {
    &&& levels_valid(b.bids, Side::Bid)
    &&& levels_valid(b.asks, Side::Ask)
    &&& ids_unique(b.bids)
    &&& ids_unique(b.asks)
    &&& ids_disjoint(b.bids, b.asks)
}

/// The position at which a level of price `p` stands or would be inserted:
/// the number of levels priced below `p` (in an ascending sequence).
pub open spec fn insert_pos(levels: Seq<Level>, p: Price) -> int
    decreases levels.len(),
{
    if levels.len() == 0 {
        0
    } else if levels.last().price < p {
        levels.len() as int
    } else {
        insert_pos(levels.drop_last(), p)
    }
}

/// `levels` has a level priced `p`.
pub open spec fn has_level(levels: Seq<Level>, p: Price) -> bool {
    let k = insert_pos(levels, p);
    k < levels.len() && levels[k].price == p
}

/// The side after `o` is queued at the back of its price level, the level
/// being created in price order if there was none.
pub open spec fn levels_add(levels: Seq<Level>, o: Order) -> Seq<Level> {
    let k = insert_pos(levels, o.price);
    if has_level(levels, o.price) {
        levels.update(k, Level { price: o.price, orders: levels[k].orders.push(o) })
    } else {
        levels.insert(k, Level { price: o.price, orders: seq![o] })
    }
}

/// The book after `o` rests on its side.
pub open spec fn book_add(b: BookView, o: Order) -> BookView {
    with_side_levels(b, o.side, levels_add(side_levels(b, o.side), o))
}

/// The queue of orders at price `p` in `levels` (empty if there is no such level).
pub open spec fn level_at(levels: Seq<Level>, p: Price) -> Seq<Order> {
    if has_level(levels, p) {
        levels[insert_pos(levels, p)].orders
    } else {
        Seq::empty()
    }
}

/// The id index can take `o`: its id is not in use, and the position it
/// would take in its queue fits the index's 31 bits.
pub open spec fn can_index(b: BookView, o: Order) -> bool {
    &&& !rests(b, o.id)
    &&& level_at(side_levels(b, o.side), o.price).len() < 0x8000_0000
}

/// The total quantity of `o`'s level stays within `u64` with `o` added.
pub open spec fn volume_fits(b: BookView, o: Order) -> bool {
    crate::price_level::sum_quantity(level_at(side_levels(b, o.side), o.price)) + o.quantity
        <= u64::MAX
}

/// The book can take `o` as a resting order.
pub open spec fn can_rest(b: BookView, o: Order) -> bool {
    can_index(b, o) && volume_fits(b, o)
}

/// The book after offering `o` as a resting order, and what `add_order`
/// answers: `o` rests if the index can take it, else the book is unchanged
/// and `o` is rejected.
pub open spec fn add_outcome(b: BookView, o: Order) -> (BookView, OrderResult) {
    if can_index(b, o) {
        (book_add(b, o), OrderResult::Added(o.id))
    } else {
        (b, OrderResult::Rejected(o.id))
    }
}

/// Whatever of `t` is left to rest after matching keeps its level's total
/// within `u64`: the order itself if it does not cross, else what remains of
/// it after executing.
pub open spec fn match_fits(b: BookView, t: Order) -> bool {
    if !crosses(b, t) {
        volume_fits(b, t)
    } else {
        let (b2, t2) = match_loop(b, t);
        t2.quantity > 0 ==> volume_fits(b2, t2)
    }
}

/// The order with id `id` stands at position `k` of level `li`.
pub open spec fn holds_at(levels: Seq<Level>, id: OrderId, li: int, k: int) -> bool {
    &&& 0 <= li < levels.len()
    &&& 0 <= k < levels[li].orders.len()
    &&& levels[li].orders[k].id == id
}

pub open spec fn rests_on(levels: Seq<Level>, id: OrderId) -> bool {
    exists|li: int, k: int| holds_at(levels, id, li, k)
}

/// An order with id `id` rests in the book.
pub open spec fn rests(b: BookView, id: OrderId) -> bool {
    rests_on(b.bids, id) || rests_on(b.asks, id)
}

/// The side after the order at position `k` of level `li` leaves it: the
/// orders behind it move up one place, in arrival order, and a level left
/// empty is removed.
pub open spec fn levels_remove_at(levels: Seq<Level>, li: int, k: int) -> Seq<Level> {
    let rest = levels[li].orders.remove(k);
    if rest.len() == 0 {
        levels.remove(li)
    } else {
        levels.update(li, Level { price: levels[li].price, orders: rest })
    }
}

/// The side after the order with id `id`, if it rests there, leaves it.
pub open spec fn levels_cancel(levels: Seq<Level>, id: OrderId) -> Seq<Level> {
    if rests_on(levels, id) {
        let (li, k) = choose|li: int, k: int| holds_at(levels, id, li, k);
        levels_remove_at(levels, li, k)
    } else {
        levels
    }
}

/// The book after the order with id `id`, if it rests, is cancelled.
pub open spec fn book_cancel(b: BookView, id: OrderId) -> BookView {
    BookView { bids: levels_cancel(b.bids, id), asks: levels_cancel(b.asks, id), trades: b.trades }
}

/// What cancelling `id` answers.
pub open spec fn cancel_result(b: BookView, id: OrderId) -> OrderResult {
    if rests(b, id) {
        OrderResult::Cancelled(id)
    } else {
        OrderResult::NotFound(id)
    }
}

/// The highest bid price.
pub open spec fn best_bid_of(b: BookView) -> Option<Price> {
    if b.bids.len() > 0 {
        Some(b.bids.last().price)
    } else {
        None
    }
}

/// The lowest ask price.
pub open spec fn best_ask_of(b: BookView) -> Option<Price> {
    if b.asks.len() > 0 {
        Some(b.asks[0].price)
    } else {
        None
    }
}

/// The midpoint of the best bid and the best ask, rounded down.
pub open spec fn mid_price_of(b: BookView) -> Option<Price> {
    match (best_bid_of(b), best_ask_of(b)) {
        (Some(bid), Some(ask)) => Some(((bid + ask) / 2) as Price),
        _ => None,
    }
}

/// No bid is priced above the lowest ask.
pub open spec fn uncrossed(b: BookView) -> bool {
    match (best_bid_of(b), best_ask_of(b)) {
        (Some(bid), Some(ask)) => bid <= ask,
        _ => true,
    }
}

/// The best ask less the best bid.
pub open spec fn spread_of(b: BookView) -> Option<Price> {
    match (best_bid_of(b), best_ask_of(b)) {
        (Some(bid), Some(ask)) => Some((ask - bid) as Price),
        _ => None,
    }
}

/// The taker's limit reaches the best price on the opposite side.
pub open spec fn crosses(b: BookView, t: Order) -> bool {
    match t.side {
        Side::Bid => b.asks.len() > 0 && b.asks[0].price <= t.price,
        Side::Ask => b.bids.len() > 0 && b.bids.last().price >= t.price,
    }
}

/// Index of the best level of a side, seen from a taker on side `taker`:
/// the lowest ask for a bid, the highest bid for an ask.
pub open spec fn best_index(levels: Seq<Level>, taker: Side) -> int {
    match taker {
        Side::Bid => 0,
        Side::Ask => levels.len() - 1,
    }
}

/// One execution of the taker `t` against the order at the front of level
/// `li`: the side afterwards, the taker afterwards, and the trade.
pub open spec fn level_step(levels: Seq<Level>, li: int, t: Order) -> (Seq<Level>, Order, Trade) {
    let lvl = levels[li];
    let maker = lvl.orders[0];
    let q = if maker.quantity <= t.quantity { maker.quantity } else { t.quantity };
    let trade = Trade { price: lvl.price, quantity: q, maker_id: maker.id, taker_id: t.id };
    let rest = if maker.quantity <= t.quantity {
        levels_remove_at(levels, li, 0)
    } else {
        levels.update(
            li,
            Level { price: lvl.price, orders: lvl.orders.update(0, with_quantity(maker, (maker.quantity - q) as u64)) },
        )
    };
    (rest, with_quantity(t, (t.quantity - q) as u64), trade)
}

/// One execution of `t` against the front order of the best opposite level.
pub open spec fn match_step(b: BookView, t: Order) -> (BookView, Order) {
    let opp = side_levels(b, opposite(t.side));
    let (rest, t2, trade) = level_step(opp, best_index(opp, t.side), t);
    (BookView { trades: b.trades.push(trade), ..with_side_levels(b, opposite(t.side), rest) }, t2)
}

/// Number of orders at the best opposite level (0 when that side is empty).
pub open spec fn best_level_len(b: BookView, t: Order) -> nat {
    let opp = side_levels(b, opposite(t.side));
    if opp.len() > 0 {
        opp[best_index(opp, t.side)].orders.len()
    } else {
        0
    }
}

/// Executions continue while the taker has quantity left and crosses the
/// best opposite level.
pub open spec fn matching_continues(b: BookView, t: Order) -> bool {
    t.quantity > 0 && crosses(b, t) && best_level_len(b, t) > 0
}

/// The book and the taker once `t` has executed against the opposite side as
/// far as its quantity and limit allow, best price first, front of queue first.
pub open spec fn match_loop(b: BookView, t: Order) -> (BookView, Order)
    decreases t.quantity, side_levels(b, opposite(t.side)).len(), best_level_len(b, t),
{
    if matching_continues(b, t) {
        let (b2, t2) = match_step(b, t);
        match_loop(b2, t2)
    } else {
        (b, t)
    }
}

/// The book after `t` is matched, and what `match_order` answers: an order
/// that does not cross is offered whole as a resting order; one that crosses
/// executes, and whatever is left of it is offered as a resting order.
pub open spec fn book_match(b: BookView, t: Order) -> (BookView, OrderResult) {
    if !crosses(b, t) {
        add_outcome(b, t)
    } else {
        let (b2, t2) = match_loop(b, t);
        if t2.quantity > 0 {
            add_outcome(b2, t2)
        } else {
            (b2, OrderResult::FullFill(t.id))
        }
    }
}

/// Total quantity of a sequence of trades.
pub open spec fn trade_volume(ts: Seq<Trade>) -> int
    decreases ts.len(),
{
    if ts.len() == 0 {
        0
    } else {
        trade_volume(ts.drop_last()) + ts.last().quantity
    }
}

/// One execution changes only the best opposite level, whose price it
/// trades at, and leaves the taker's side alone: the trades grow by one, of
/// the taker's id at that price, for what the taker lost; the level stays
/// unless its last order was filled.
pub(crate) proof fn lemma_step_local(b: BookView, t: Order)
    requires
        ascending(side_levels(b, opposite(t.side))),
        matching_continues(b, t),
    ensures
        ({
            let os = opposite(t.side);
            let o = side_levels(b, os);
            let li = best_index(o, t.side);
            let (b1, t1) = match_step(b, t);
            &&& 0 <= li < o.len()
            &&& o[li].orders.len() > 0
            &&& b1.trades.len() == b.trades.len() + 1
            &&& b1.trades.drop_last() == b.trades
            &&& b1.trades.last().price == o[li].price
            &&& b1.trades.last().taker_id == t.id
            &&& b1.trades.last().quantity == t.quantity - t1.quantity
            &&& trade_volume(b1.trades) == trade_volume(b.trades) + t.quantity - t1.quantity
            &&& t1 == with_quantity(t, t1.quantity)
            &&& side_levels(b1, t.side) == side_levels(b, t.side)
            &&& forall|p: Price|
                p != o[li].price ==> #[trigger] level_at(side_levels(b1, os), p) == level_at(o, p)
            &&& has_level(side_levels(b1, os), o[li].price) <==> !(o[li].orders[0].quantity <= t.quantity
                && o[li].orders.len() == 1)
            &&& crate::price_level::sum_quantity(level_at(side_levels(b1, os), o[li].price))
                == crate::price_level::sum_quantity(level_at(o, o[li].price)) - (t.quantity
                - t1.quantity)
        }),
{
    let os = opposite(t.side);
    let o = side_levels(b, os);
    let li = best_index(o, t.side);
    let lvl = o[li];
    let maker = lvl.orders[0];
    let (rest, t1, tr) = level_step(o, li, t);
    let b1 = match_step(b, t).0;
    assert(b1.trades.drop_last() =~= b.trades);
    lemma_level_position(o, lvl.price, li);
    if maker.quantity <= t.quantity {
        lemma_levels_remove_at(o, li, 0);
        crate::price_level::lemma_sum_remove(lvl.orders, 0);
    } else {
        lemma_update_level(
            o,
            li,
            lvl.orders.update(0, with_quantity(maker, (maker.quantity - t.quantity) as u64)),
        );
        crate::price_level::lemma_sum_update(
            lvl.orders,
            0,
            with_quantity(maker, (maker.quantity - t.quantity) as u64),
        );
    }
    if t.side == Side::Bid {
        assert(b1.bids == b.bids && b1.asks == rest);
    } else {
        assert(b1.asks == b.asks && b1.bids == rest);
    }
}

/// In an ascending side, `insert_pos` splits the levels priced below `p`
/// from those priced at or above it.
pub(crate) proof fn lemma_insert_pos(levels: Seq<Level>, p: Price)
    requires
        ascending(levels),
    ensures
        0 <= insert_pos(levels, p) <= levels.len(),
        forall|j: int| 0 <= j < insert_pos(levels, p) ==> levels[j].price < p,
        forall|j: int| insert_pos(levels, p) <= j < levels.len() ==> levels[j].price >= p,
    decreases levels.len(),
{
    if levels.len() > 0 {
        let d = levels.drop_last();
        if levels.last().price >= p {
            assert(ascending(d));
            lemma_insert_pos(d, p);
            assert forall|j: int| 0 <= j < insert_pos(levels, p) implies levels[j].price < p by {
                assert(levels[j] == d[j]);
            }
            assert forall|j: int| insert_pos(levels, p) <= j < levels.len() implies levels[j].price
                >= p by {
                if j < d.len() {
                    assert(levels[j] == d[j]);
                }
            }
        } else {
            assert forall|j: int| 0 <= j < levels.len() implies levels[j].price < p by {
                if j < levels.len() - 1 {
                    assert(levels[j].price < levels[levels.len() - 1].price);
                }
            }
        }
    }
}

/// A level priced `p` can only stand at `insert_pos(levels, p)`.
pub(crate) proof fn lemma_level_position(levels: Seq<Level>, p: Price, i: int)
    requires
        ascending(levels),
        0 <= i < levels.len(),
        levels[i].price == p,
    ensures
        insert_pos(levels, p) == i,
        has_level(levels, p),
{
    lemma_insert_pos(levels, p);
    let k = insert_pos(levels, p);
    if k < i {
        assert(levels[k].price < levels[i].price);
    }
    if i < k {
        assert(levels[i].price < p);
    }
}

/// Two sides with the same prices in the same places agree on where each
/// price stands.
pub(crate) proof fn lemma_same_prices(a: Seq<Level>, b: Seq<Level>, p: Price)
    requires
        a.len() == b.len(),
        forall|i: int| 0 <= i < a.len() ==> a[i].price == b[i].price,
    ensures
        insert_pos(a, p) == insert_pos(b, p),
        has_level(a, p) == has_level(b, p),
    decreases a.len(),
{
    if a.len() > 0 {
        let (da, db) = (a.drop_last(), b.drop_last());
        assert forall|i: int| 0 <= i < da.len() implies da[i].price == db[i].price by {
            assert(da[i] == a[i] && db[i] == b[i]);
        }
        assert(a.last().price == b.last().price);
        lemma_same_prices(da, db, p);
    }
    lemma_insert_pos_bound(a, p);
    let k = insert_pos(a, p);
    if k < a.len() {
        assert(a[k].price == b[k].price);
    }
}

pub(crate) proof fn lemma_insert_pos_bound(levels: Seq<Level>, p: Price)
    ensures
        0 <= insert_pos(levels, p) <= levels.len(),
    decreases levels.len(),
{
    if levels.len() > 0 {
        lemma_insert_pos_bound(levels.drop_last(), p);
    }
}

/// In an ascending side, the level at index `li` is the queue at its price.
pub(crate) proof fn lemma_level_at_index(levels: Seq<Level>, li: int)
    requires
        ascending(levels),
        0 <= li < levels.len(),
    ensures
        level_at(levels, levels[li].price) == levels[li].orders,
        insert_pos(levels, levels[li].price) == li,
{
    lemma_level_position(levels, levels[li].price, li);
}

/// Replacing the queue of level `li` changes the queue at its price only.
pub(crate) proof fn lemma_update_level(levels: Seq<Level>, li: int, orders: Seq<Order>)
    requires
        ascending(levels),
        0 <= li < levels.len(),
    ensures
        ascending(levels.update(li, Level { price: levels[li].price, orders })),
        forall|p: Price|
            #[trigger] level_at(levels.update(li, Level { price: levels[li].price, orders }), p) == if p
                == levels[li].price {
                orders
            } else {
                level_at(levels, p)
            },
        forall|p: Price|
            #[trigger] has_level(levels.update(li, Level { price: levels[li].price, orders }), p)
                == has_level(levels, p),
{
    let n = levels.update(li, Level { price: levels[li].price, orders });
    assert forall|i: int| 0 <= i < levels.len() implies levels[i].price == n[i].price by {}
    assert forall|p: Price| #[trigger] level_at(n, p) == if p == levels[li].price {
        orders
    } else {
        level_at(levels, p)
    } by {
        lemma_same_prices(levels, n, p);
        lemma_insert_pos_bound(levels, p);
        if p == levels[li].price {
            lemma_level_position(levels, p, li);
        }
    }
    assert forall|p: Price| #[trigger] has_level(n, p) == has_level(levels, p) by {
        lemma_same_prices(levels, n, p);
    }
}

/// Removing level `li` drops the queue at its price and keeps every other.
pub(crate) proof fn lemma_remove_level(levels: Seq<Level>, li: int)
    requires
        ascending(levels),
        0 <= li < levels.len(),
    ensures
        ascending(levels.remove(li)),
        forall|p: Price|
            #[trigger] level_at(levels.remove(li), p) == if p == levels[li].price {
                Seq::<Order>::empty()
            } else {
                level_at(levels, p)
            },
        forall|p: Price|
            #[trigger] has_level(levels.remove(li), p) == (has_level(levels, p) && p != levels[li].price),
{
    let n = levels.remove(li);
    levels.remove_ensures(li);
    assert forall|i: int, j: int| 0 <= i < j < n.len() implies n[i].price < n[j].price by {
        let oi = if i < li { i } else { i + 1 };
        let oj = if j < li { j } else { j + 1 };
        assert(n[i] == levels[oi] && n[j] == levels[oj]);
    }
    assert forall|p: Price| #[trigger] level_at(n, p) == if p == levels[li].price {
        Seq::<Order>::empty()
    } else {
        level_at(levels, p)
    } by {
        lemma_insert_pos_bound(n, p);
        lemma_insert_pos_bound(levels, p);
        if has_level(n, p) {
            let j = insert_pos(n, p);
            let oj = if j < li { j } else { j + 1 };
            assert(n[j] == levels[oj]);
            lemma_level_position(levels, p, oj);
            if p == levels[li].price {
                assert(levels[li].price == levels[oj].price);
            }
        } else if has_level(levels, p) && p != levels[li].price {
            let oj = insert_pos(levels, p);
            let j = if oj < li { oj } else { oj - 1 };
            assert(n[j] == levels[oj]);
            lemma_level_position(n, p, j);
        }
    }
    assert forall|p: Price| #[trigger] has_level(n, p) == (has_level(levels, p) && p != levels[li].price) by {
        assert(level_at(n, p) == level_at(n, p));
        lemma_insert_pos_bound(n, p);
        lemma_insert_pos_bound(levels, p);
        if has_level(n, p) {
            let j = insert_pos(n, p);
            let oj = if j < li { j } else { j + 1 };
            assert(n[j] == levels[oj]);
            lemma_level_position(levels, p, oj);
        } else if has_level(levels, p) && p != levels[li].price {
            let oj = insert_pos(levels, p);
            let j = if oj < li { oj } else { oj - 1 };
            assert(n[j] == levels[oj]);
            lemma_level_position(n, p, j);
        }
    }
}

/// Queueing `o` changes the queue at its price only, by appending `o`.
pub(crate) proof fn lemma_levels_add(levels: Seq<Level>, o: Order)
    requires
        ascending(levels),
    ensures
        ascending(levels_add(levels, o)),
        forall|p: Price|
            #[trigger] level_at(levels_add(levels, o), p) == if p == o.price {
                level_at(levels, p).push(o)
            } else {
                level_at(levels, p)
            },
        forall|p: Price|
            #[trigger] has_level(levels_add(levels, o), p) == (has_level(levels, p) || p == o.price),
{
    let k = insert_pos(levels, o.price);
    lemma_insert_pos(levels, o.price);
    if has_level(levels, o.price) {
        lemma_update_level(levels, k, levels[k].orders.push(o));
    } else {
        lemma_insert_level(levels, o);
        assert(seq![o] =~= Seq::<Order>::empty().push(o));
    }
}

/// A new level of one order `o`, at a price no level has, changes the queue
/// at that price only.
proof fn lemma_insert_level(levels: Seq<Level>, o: Order)
    requires
        ascending(levels),
        !has_level(levels, o.price),
    ensures
        ascending(levels.insert(insert_pos(levels, o.price), Level { price: o.price, orders: seq![o] })),
        forall|p: Price|
            #[trigger] level_at(
                levels.insert(insert_pos(levels, o.price), Level { price: o.price, orders: seq![o] }),
                p,
            ) == if p == o.price {
                seq![o]
            } else {
                level_at(levels, p)
            },
        forall|p: Price|
            #[trigger] has_level(
                levels.insert(insert_pos(levels, o.price), Level { price: o.price, orders: seq![o] }),
                p,
            ) == (has_level(levels, p) || p == o.price),
{
    let k = insert_pos(levels, o.price);
    lemma_insert_pos(levels, o.price);
    let lvl = Level { price: o.price, orders: seq![o] };
    let n = levels.insert(k, lvl);
    levels.insert_ensures(k, lvl);
    assert(k >= levels.len() || levels[k].price > o.price);
    assert forall|i: int, j: int| 0 <= i < j < n.len() implies n[i].price < n[j].price by {
        if i != k && j != k {
            let oi = if i < k { i } else { i - 1 };
            let oj = if j < k { j } else { j - 1 };
            assert(n[i] == levels[oi] && n[j] == levels[oj]);
        } else if i == k {
            assert(n[j] == levels[j - 1]);
            if j - 1 > k {
                assert(levels[k].price < levels[j - 1].price);
            }
        } else {
            assert(n[i] == levels[i]);
        }
    }
    assert forall|p: Price| #[trigger] has_level(n, p) == (has_level(levels, p) || p == o.price) by {
        lemma_insert_pos_bound(n, p);
        lemma_insert_pos_bound(levels, p);
        if p == o.price {
            lemma_level_position(n, p, k);
        } else if has_level(n, p) {
            let j = insert_pos(n, p);
            let oj = if j < k { j } else { j - 1 };
            assert(n[j] == levels[oj]);
            lemma_level_position(levels, p, oj);
        } else if has_level(levels, p) {
            let oj = insert_pos(levels, p);
            let j = if oj < k { oj } else { oj + 1 };
            assert(n[j] == levels[oj]);
            lemma_level_position(n, p, j);
        }
    }
    assert forall|p: Price| #[trigger] level_at(n, p) == if p == o.price {
        seq![o]
    } else {
        level_at(levels, p)
    } by {
        lemma_insert_pos_bound(n, p);
        lemma_insert_pos_bound(levels, p);
        if p == o.price {
            lemma_level_position(n, p, k);
        } else if has_level(n, p) {
            let j = insert_pos(n, p);
            let oj = if j < k { j } else { j - 1 };
            assert(n[j] == levels[oj]);
            lemma_level_position(levels, p, oj);
        }
    }
}

/// Removing the order at position `k` of level `li` changes the queue at
/// that level's price only, where the order leaves its queue.
pub(crate) proof fn lemma_levels_remove_at(levels: Seq<Level>, li: int, k: int)
    requires
        ascending(levels),
        0 <= li < levels.len(),
        0 <= k < levels[li].orders.len(),
    ensures
        ascending(levels_remove_at(levels, li, k)),
        forall|p: Price|
            #[trigger] level_at(levels_remove_at(levels, li, k), p) == if p == levels[li].price {
                levels[li].orders.remove(k)
            } else {
                level_at(levels, p)
            },
        forall|p: Price|
            #[trigger] has_level(levels_remove_at(levels, li, k), p) == (has_level(levels, p) && !(p
                == levels[li].price && levels[li].orders.len() == 1)),
{
    let rest = levels[li].orders.remove(k);
    levels[li].orders.remove_ensures(k);
    if rest.len() == 0 {
        lemma_remove_level(levels, li);
        assert(rest =~= Seq::<Order>::empty());
    } else {
        lemma_update_level(levels, li, rest);
    }
}

} // verus!
