use vstd::prelude::*;
use crate::lemmas::{
    book_valid_at, lemma_match_loop_frame, lemma_step_valid, lemma_add_side, lemma_book_valid_equiv,
    lemma_remove_side, lemma_rests_equiv, lemma_unique_equiv, lemma_valid_equiv, rests_at,
};
use crate::model::{
    book_match, uncrossed, lemma_levels_add, match_fits, best_index, crosses, level_step,
    match_loop, match_step, matching_continues, opposite, lemma_levels_remove_at,
    lemma_update_level, best_level_len, BookView, ascending, best_ask_of, best_bid_of, book_add,
    book_cancel, book_valid, has_level, holds_at, insert_pos, lemma_insert_pos, add_outcome,
    can_index, cancel_result, level_at, volume_fits, lemma_level_at_index, trade_volume,
    lemma_level_position, levels_add, levels_cancel, levels_remove_at, rests, rests_on, side_levels,
};
use crate::price_level::{Level, lemma_sum_remove, lemma_sum_update, sum_quantity};
use crate::types::{Order, OrderId, OrderResult, Price, Side, Trade, with_quantity};

verus! {

/// The best bid is the highest bid price, and the best ask the lowest ask
/// price, in a well-formed book.
pub proof fn law_best_prices_are_extremes(b: BookView)
    requires
        book_valid(b),
    ensures
        forall|i: int| 0 <= i < b.bids.len() ==> best_bid_of(b) == Some(b.bids.last().price) && #[trigger] b.bids[i].price <= b.bids.last().price,
        forall|i: int| 0 <= i < b.asks.len() ==> best_ask_of(b) == Some(b.asks[0].price) && #[trigger] b.asks[i].price >= b.asks[0].price,
        b.bids.len() == 0 <==> best_bid_of(b) is None,
        b.asks.len() == 0 <==> best_ask_of(b) is None,
{
    assert forall|i: int| 0 <= i < b.bids.len() implies #[trigger] b.bids[i].price <= b.bids.last().price by {
        if i < b.bids.len() - 1 {
            assert(b.bids[i].price < b.bids[b.bids.len() - 1].price);
        }
    }
    assert forall|i: int| 0 <= i < b.asks.len() implies #[trigger] b.asks[i].price >= b.asks[0].price by {
        if i > 0 {
            assert(b.asks[0].price < b.asks[i].price);
        }
    }
}

/// Offering an order keeps a well-formed book well formed. An order the
/// index can take then rests in the book and is answered Added; any other,
/// among them every order whose id already rests, is answered Rejected and
/// leaves the book as it was.
pub proof fn law_add_rests(b: BookView, o: Order)
    requires
        book_valid(b),
    ensures
        book_valid(add_outcome(b, o).0),
        can_index(b, o) ==> add_outcome(b, o).1 == OrderResult::Added(o.id) && rests(
            add_outcome(b, o).0,
            o.id,
        ),
        !can_index(b, o) ==> add_outcome(b, o) == (b, OrderResult::Rejected(o.id)),
        rests(b, o.id) ==> add_outcome(b, o) == (b, OrderResult::Rejected(o.id)),
{
    if can_index(b, o) {
        lemma_book_valid_equiv(b);
        let s = side_levels(b, o.side);
        lemma_add_side(s, o);
        let b2 = book_add(b, o);
        crate::model::lemma_levels_add(s, o);
        if o.side == Side::Bid {
            assert(b2.asks == b.asks);
        } else {
            assert(b2.bids == b.bids);
        }
        assert forall|id: OrderId| !(#[trigger] rests_at(b2.bids, id) && rests_at(b2.asks, id)) by {
            assert(!(rests_at(b.bids, id) && rests_at(b.asks, id)));
        }
        lemma_book_valid_equiv(b2);
    }
}

/// Orders at one price share one level: adding an order creates a level only
/// when its side has none at its price.
pub proof fn law_one_level_per_price(b: BookView, o: Order)
    requires
        book_valid(b),
    ensures
        side_levels(book_add(b, o), o.side).len() == side_levels(b, o.side).len() + if has_level(
            side_levels(b, o.side),
            o.price,
        ) {
            0int
        } else {
            1int
        },
{
    let s = side_levels(b, o.side);
    lemma_insert_pos(s, o.price);
}

/// Cancelling an order just added is answered Cancelled and gives back the
/// book as it was, with every other order in its place in its queue.
pub proof fn law_cancel_undoes_add(b: BookView, o: Order)
    requires
        book_valid(b),
        can_index(b, o),
    ensures
        add_outcome(b, o).1 == OrderResult::Added(o.id),
        cancel_result(add_outcome(b, o).0, o.id) == OrderResult::Cancelled(o.id),
        book_cancel(add_outcome(b, o).0, o.id) == b,
{
    lemma_book_valid_equiv(b);
    let s = side_levels(b, o.side);
    let other = side_levels(b, crate::model::opposite(o.side));
    let n = levels_add(s, o);
    let k = insert_pos(s, o.price);
    lemma_insert_pos(s, o.price);
    lemma_add_side(s, o);
    lemma_unique_equiv(n);
    crate::model::lemma_levels_add(s, o);
    let last = if has_level(s, o.price) { s[k].orders.len() as int } else { 0 };
    if has_level(s, o.price) {
        assert(n[k].orders[last] == o);
    } else {
        s.insert_ensures(k, Level { price: o.price, orders: seq![o] });
        assert(n[k].orders[last] == o);
    }
    assert(holds_at(n, o.id, k, last));
    assert(rests_on(n, o.id));
    let (l2, k2) = choose|l2: int, k2: int| holds_at(n, o.id, l2, k2);
    assert(n[l2].orders[k2].id == n[k].orders[last].id);
    assert(levels_cancel(n, o.id) == levels_remove_at(n, k, last));
    if has_level(s, o.price) {
        assert(n[k].orders.remove(last) =~= s[k].orders);
        assert(levels_remove_at(n, k, last) =~= s);
    } else {
        assert(n[k].orders.remove(last).len() == 0);
        assert(levels_remove_at(n, k, last) =~= s);
    }
    lemma_rests_equiv(other, o.id);
    assert(levels_cancel(other, o.id) == other);
    lemma_rests_equiv(s, o.id);
    assert(levels_cancel(s, o.id) == s);
    if o.side == Side::Bid {
        assert(book_cancel(book_add(b, o), o.id) =~= b);
    } else {
        assert(book_cancel(book_add(b, o), o.id) =~= b);
    }
}

/// Cancelling keeps a well-formed book well formed, and the cancelled id no
/// longer rests: a second cancel of it finds nothing.
pub proof fn law_cancel_removes(b: BookView, id: OrderId)
    requires
        book_valid(b),
    ensures
        book_valid(book_cancel(b, id)),
        !rests(book_cancel(b, id), id),
{
    lemma_book_valid_equiv(b);
    if rests_on(b.bids, id) {
        lemma_cancel_side(b, Side::Bid, id);
    } else if rests_on(b.asks, id) {
        lemma_cancel_side(b, Side::Ask, id);
    } else {
        assert(book_cancel(b, id) =~= b);
    }
}

proof fn lemma_cancel_side(b: BookView, side: Side, id: OrderId)
    requires
        book_valid(b),
        rests_on(side_levels(b, side), id),
    ensures
        book_valid(book_cancel(b, id)),
        !rests(book_cancel(b, id), id),
{
    lemma_book_valid_equiv(b);
    let s = side_levels(b, side);
    let other = side_levels(b, crate::model::opposite(side));
    let (li, k) = choose|li: int, k: int| holds_at(s, id, li, k);
    lemma_remove_side(s, li, k, side);
    let ns = levels_remove_at(s, li, k);
    lemma_rests_equiv(s, id);
    lemma_rests_equiv(other, id);
    assert(levels_cancel(other, id) == other);
    let b2 = book_cancel(b, id);
    if side == Side::Bid {
        assert(b2.bids == ns && b2.asks == b.asks);
    } else {
        assert(b2.asks == ns && b2.bids == b.bids);
    }
    assert forall|x: OrderId| !(#[trigger] rests_at(b2.bids, x) && rests_at(b2.asks, x)) by {
        assert(!(rests_at(b.bids, x) && rests_at(b.asks, x)));
    }
    lemma_book_valid_equiv(b2);
    lemma_rests_equiv(ns, id);
}

/// The trade is priced within the taker's limit.
pub open spec fn within_limit(tr: Trade, t: Order) -> bool {
    match t.side {
        Side::Bid => tr.price <= t.price,
        Side::Ask => tr.price >= t.price,
    }
}

/// `tr` is priced no better for the taker than price `p`: for a bid taker at
/// or above `p`, for an ask taker at or below it.
pub open spec fn at_or_beyond(tr: Trade, p: Price, taker: Side) -> bool {
    match taker {
        Side::Bid => tr.price >= p,
        Side::Ask => tr.price <= p,
    }
}

/// The best price on the opposite side, seen from a taker on side `taker`.
pub open spec fn best_opposite(b: BookView, taker: Side) -> Option<Price> {
    match taker {
        Side::Bid => best_ask_of(b),
        Side::Ask => best_bid_of(b),
    }
}

/// One execution takes no price level into the opposite side that was not
/// there.
proof fn lemma_step_prices(b: BookView, t: Order)
    requires
        book_valid_at(b),
        matching_continues(b, t),
    ensures
        forall|p: Price|
            #[trigger] has_level(side_levels(match_step(b, t).0, opposite(t.side)), p) ==> has_level(
                side_levels(b, opposite(t.side)),
                p,
            ),
{
    let os = opposite(t.side);
    let o = side_levels(b, os);
    let li = best_index(o, t.side);
    let maker = o[li].orders[0];
    let rest = level_step(o, li, t).0;
    assert(ascending(o)) by {
        lemma_valid_equiv(o, os);
    }
    if maker.quantity <= t.quantity {
        lemma_levels_remove_at(o, li, 0);
    } else {
        lemma_update_level(
            o,
            li,
            o[li].orders.update(0, with_quantity(maker, (maker.quantity - t.quantity) as u64)),
        );
    }
    assert(side_levels(match_step(b, t).0, os) == rest);
}

/// A well-formed side whose prices all occur in another well-formed side
/// has its best price no better than the other's.
proof fn lemma_subset_best(a: Seq<Level>, b: Seq<Level>, taker: Side)
    requires
        ascending(a),
        ascending(b),
        a.len() > 0,
        forall|p: Price| #[trigger] has_level(a, p) ==> has_level(b, p),
    ensures
        b.len() > 0,
        taker == Side::Bid ==> a[0].price >= b[0].price,
        taker == Side::Ask ==> a.last().price <= b.last().price,
{
    let i = best_index(a, taker);
    lemma_level_position(a, a[i].price, i);
    assert(has_level(b, a[i].price));
    lemma_insert_pos(b, a[i].price);
    let j = insert_pos(b, a[i].price);
    if taker == Side::Bid {
        if j > 0 {
            assert(b[0].price < b[j].price);
        }
    } else {
        if j < b.len() - 1 {
            assert(b[j].price < b[b.len() - 1].price);
        }
    }
}

/// Executions against the opposite side: the trades only grow, by trades of
/// the taker's id, priced within its limit, at prices that get no better for
/// the taker as matching goes on and start no better than the best opposite
/// price; their total quantity is what the taker lost; and the opposite side
/// gains no price level.
pub proof fn law_match_trades(b: BookView, t: Order)
    requires
        book_valid(b),
    ensures
        ({
            let (b2, t2) = match_loop(b, t);
            &&& b2.trades.len() >= b.trades.len()
            &&& b2.trades.subrange(0, b.trades.len() as int) == b.trades
            &&& trade_volume(b2.trades) == trade_volume(b.trades) + t.quantity - t2.quantity
            &&& forall|i: int|
                b.trades.len() <= i < b2.trades.len() ==> within_limit(#[trigger] b2.trades[i], t)
                    && b2.trades[i].taker_id == t.id
            &&& forall|i: int, j: int|
                b.trades.len() <= i < j < b2.trades.len() ==> at_or_beyond(
                    #[trigger] b2.trades[j],
                    #[trigger] b2.trades[i].price,
                    t.side,
                )
            &&& forall|i: int|
                b.trades.len() <= i < b2.trades.len() ==> (best_opposite(b, t.side) matches Some(p)
                    && at_or_beyond(#[trigger] b2.trades[i], p, t.side))
            &&& forall|p: Price|
                #[trigger] has_level(side_levels(b2, opposite(t.side)), p) ==> has_level(
                    side_levels(b, opposite(t.side)),
                    p,
                )
        }),
    decreases t.quantity, side_levels(b, opposite(t.side)).len(), best_level_len(b, t),
{
    lemma_book_valid_equiv(b);
    if matching_continues(b, t) {
        let (b1, t1) = match_step(b, t);
        let (b2, t2) = match_loop(b, t);
        lemma_step_valid(b, t);
        lemma_step_prices(b, t);
        lemma_book_valid_equiv(b1);
        law_match_trades(b1, t1);
        let os = opposite(t.side);
        let o = side_levels(b, os);
        let li = best_index(o, t.side);
        let tr = level_step(o, li, t).2;
        assert(b1.trades == b.trades.push(tr));
        assert(b1.trades.drop_last() =~= b.trades);
        // the prefix
        assert(b2.trades.subrange(0, b1.trades.len() as int) == b1.trades);
        assert forall|i: int| 0 <= i < b.trades.len() implies b2.trades[i] == b.trades[i] by {
            assert(b2.trades.subrange(0, b1.trades.len() as int)[i] == b1.trades[i]);
        }
        assert(b2.trades.subrange(0, b.trades.len() as int) =~= b.trades);
        assert(b2.trades[b.trades.len() as int] == tr) by {
            assert(b2.trades.subrange(0, b1.trades.len() as int)[b.trades.len() as int] == b1.trades[b.trades.len() as int]);
        }
        // the best opposite price of b1 is no better than that of b
        assert(ascending(o)) by {
            lemma_valid_equiv(o, os);
        }
        let o1 = side_levels(b1, os);
        if o1.len() > 0 {
            assert(ascending(o1)) by {
                lemma_book_valid_equiv(b1);
                lemma_valid_equiv(o1, os);
            }
            lemma_subset_best(o1, o, t.side);
        }
        assert forall|i: int| b.trades.len() <= i < b2.trades.len() implies within_limit(#[trigger] b2.trades[i], t)
            && b2.trades[i].taker_id == t.id && (best_opposite(b, t.side) matches Some(p)
            && at_or_beyond(b2.trades[i], p, t.side)) by {
            if i > b.trades.len() {
                assert(best_opposite(b1, t1.side) matches Some(p) && at_or_beyond(b2.trades[i], p, t.side));
            }
        }
        assert forall|i: int, j: int| b.trades.len() <= i < j < b2.trades.len() implies at_or_beyond(
            #[trigger] b2.trades[j],
            #[trigger] b2.trades[i].price,
            t.side,
        ) by {
            if i == b.trades.len() {
                assert(best_opposite(b1, t1.side) matches Some(p) && at_or_beyond(b2.trades[j], p, t.side));
            }
        }
    }
}

/// A well-formed side has a level at its first and at its last price.
proof fn lemma_ends_have_levels(a: Seq<Level>)
    requires
        ascending(a),
        a.len() > 0,
    ensures
        has_level(a, a[0].price),
        has_level(a, a.last().price),
{
    lemma_level_position(a, a[0].price, 0);
    lemma_level_position(a, a.last().price, a.len() - 1);
}

/// Every price of a well-formed side lies between its first and last price.
proof fn lemma_within_ends(a: Seq<Level>, p: Price)
    requires
        ascending(a),
        has_level(a, p),
    ensures
        a[0].price <= p <= a.last().price,
{
    lemma_insert_pos(a, p);
    let j = insert_pos(a, p);
    if j > 0 {
        assert(a[0].price < a[j].price);
    }
    if j < a.len() - 1 {
        assert(a[j].price < a[a.len() - 1].price);
    }
}

/// Resting an order that does not cross keeps the book uncrossed, strictly
/// so if it was.
proof fn lemma_add_uncrossed(b: BookView, o: Order)
    requires
        book_valid(b),
        !crosses(b, o),
    ensures
        uncrossed(b) ==> uncrossed(book_add(b, o)),
        strictly_uncrossed(b) ==> strictly_uncrossed(book_add(b, o)),
        uncrossed(b) ==> uncrossed(add_outcome(b, o).0),
        strictly_uncrossed(b) ==> strictly_uncrossed(add_outcome(b, o).0),
{
    let s = side_levels(b, o.side);
    let n = levels_add(s, o);
    lemma_levels_add(s, o);
    let b2 = book_add(b, o);
    if o.side == Side::Bid {
        assert(b2.asks == b.asks && b2.bids == n);
        if n.len() > 0 && b.asks.len() > 0 {
            lemma_ends_have_levels(n);
            let p = n.last().price;
            if p != o.price {
                lemma_within_ends(s, p);
            }
        }
    } else {
        assert(b2.bids == b.bids && b2.asks == n);
        if n.len() > 0 && b.bids.len() > 0 {
            lemma_ends_have_levels(n);
            let p = n[0].price;
            if p != o.price {
                lemma_within_ends(s, p);
            }
        }
    }
}

/// Matching an order keeps an uncrossed book uncrossed: no bid is ever left
/// priced above the lowest ask.
pub proof fn law_match_keeps_uncrossed(b: BookView, t: Order)
    requires
        book_valid(b),
        uncrossed(b),
    ensures
        uncrossed(book_match(b, t).0),
{
    if !crosses(b, t) {
        lemma_add_uncrossed(b, t);
    } else {
        let (b2, t2) = match_loop(b, t);
        let os = opposite(t.side);
        lemma_book_valid_equiv(b);
        lemma_match_loop_frame(b, t);
        law_match_trades(b, t);
        lemma_book_valid_equiv(b2);
        let o = side_levels(b, os);
        let o2 = side_levels(b2, os);
        lemma_valid_equiv(o, os);
        lemma_valid_equiv(o2, os);
        if o2.len() > 0 {
            lemma_subset_best(o2, o, t.side);
        }
        if t.side == Side::Bid {
            assert(b2.bids == b.bids && b2.asks == o2);
        } else {
            assert(b2.asks == b.asks && b2.bids == o2);
        }
        assert(uncrossed(b2));
        if t2.quantity > 0 {
            if crosses(b2, t2) {
                assert(o2[best_index(o2, t.side)].orders.len() > 0);
            }
            lemma_add_uncrossed(b2, t2);
        }
    }
}

/// What rests of a matched order does not cross the book it rests in.
pub proof fn law_rest_does_not_cross(b: BookView, t: Order)
    requires
        book_valid(b),
    ensures
        ({
            let (b2, t2) = match_loop(b, t);
            t2.quantity > 0 ==> !crosses(b2, t2)
        }),
{
    let (b2, t2) = match_loop(b, t);
    let os = opposite(t.side);
    lemma_book_valid_equiv(b);
    lemma_match_loop_frame(b, t);
    lemma_book_valid_equiv(b2);
    let o2 = side_levels(b2, os);
    lemma_valid_equiv(o2, os);
    if t2.quantity > 0 && crosses(b2, t2) {
        assert(o2[best_index(o2, t.side)].orders.len() > 0);
    }
}

/// An order whose quantity fits its level's total can always be matched:
/// whatever is left of it after executing fits the same level, which
/// matching does not touch.
pub proof fn law_fitting_order_can_match(b: BookView, t: Order)
    requires
        book_valid(b),
        volume_fits(b, t),
    ensures
        match_fits(b, t),
{
    if crosses(b, t) {
        lemma_book_valid_equiv(b);
        lemma_match_loop_frame(b, t);
    }
}

/// The mid price lies between the best bid and the best ask of an uncrossed
/// book.
pub proof fn law_mid_between(b: BookView)
    requires
        uncrossed(b),
    ensures
        crate::model::mid_price_of(b) matches Some(mid) ==> best_bid_of(b)->0 <= mid <= best_ask_of(b)->0,
{
}

/// The mid price is the midpoint of the highest bid and the lowest ask,
/// rounded down: twice it is their sum, or one less. A book missing a side
/// has none.
pub proof fn law_mid_price_is_midpoint(b: BookView)
    ensures
        crate::model::mid_price_of(b) is Some <==> b.bids.len() > 0 && b.asks.len() > 0,
        crate::model::mid_price_of(b) matches Some(m) ==> 2 * m <= b.bids.last().price
            + b.asks[0].price < 2 * m + 2,
{
}

/// The spread of an uncrossed book is the exact distance from the highest
/// bid up to the lowest ask. A book missing a side has none.
pub proof fn law_spread_is_distance(b: BookView)
    requires
        uncrossed(b),
    ensures
        crate::model::spread_of(b) is Some <==> b.bids.len() > 0 && b.asks.len() > 0,
        crate::model::spread_of(b) matches Some(d) ==> b.bids.last().price + d == b.asks[0].price,
{
}

/// An order is taken exactly when its id does not rest in the book and its
/// level holds fewer than 2^31 orders (all the positions the index can
/// hold): it is then answered Added and rests at the back of its level's
/// queue. Otherwise it is answered Rejected and the book is unchanged.
pub proof fn law_add_accepts(b: BookView, o: Order)
    requires
        book_valid(b),
    ensures
        (add_outcome(b, o).1 == OrderResult::Added(o.id)) <==> (!rests(b, o.id) && level_at(
            side_levels(b, o.side),
            o.price,
        ).len() < 0x8000_0000),
        !rests(b, o.id) && level_at(side_levels(b, o.side), o.price).len() < 0x8000_0000 ==> {
            &&& add_outcome(b, o).0 == book_add(b, o)
            &&& rests(add_outcome(b, o).0, o.id)
            &&& level_at(side_levels(add_outcome(b, o).0, o.side), o.price) == level_at(
                side_levels(b, o.side),
                o.price,
            ).push(o)
        },
        !(!rests(b, o.id) && level_at(side_levels(b, o.side), o.price).len() < 0x8000_0000) ==> add_outcome(b, o)
            == (b, OrderResult::Rejected(o.id)),
{
    law_add_rests(b, o);
    lemma_book_valid_equiv(b);
    lemma_valid_equiv(side_levels(b, o.side), o.side);
    lemma_levels_add(side_levels(b, o.side), o);
}

/// The book can take an order as a resting order exactly when its id does
/// not rest there, its level holds fewer than 2^31 orders, and the level's
/// total quantity with the order added stays within `u64`.
pub proof fn law_can_rest_exactly(b: BookView, o: Order)
    ensures
        crate::model::can_rest(b, o) <==> {
            &&& !rests(b, o.id)
            &&& level_at(side_levels(b, o.side), o.price).len() < 0x8000_0000
            &&& sum_quantity(level_at(side_levels(b, o.side), o.price)) + o.quantity <= u64::MAX
        },
{
}

/// Cancelling answers Cancelled exactly when an order with the id rests in
/// the book, and NotFound otherwise, leaving the book as it was.
pub proof fn law_cancel_answer(b: BookView, id: OrderId)
    ensures
        rests(b, id) ==> cancel_result(b, id) == OrderResult::Cancelled(id),
        !rests(b, id) ==> cancel_result(b, id) == OrderResult::NotFound(id) && book_cancel(b, id) == b,
{
    if !rests(b, id) {
        assert(book_cancel(b, id) =~= b);
    }
}

/// An order that leaves its level takes nothing else with it, and the
/// others keep their arrival order: those ahead of it stay where they were,
/// and each one behind it moves up one place.
pub proof fn law_queue_order_kept(levels: Seq<Level>, li: int, k: int)
    requires
        ascending(levels),
        0 <= li < levels.len(),
        0 <= k < levels[li].orders.len(),
    ensures
        ({
            let q = levels[li].orders;
            let q2 = level_at(levels_remove_at(levels, li, k), levels[li].price);
            &&& q2 == q.remove(k)
            &&& q2.len() == q.len() - 1
            &&& forall|j: int| 0 <= j < k ==> #[trigger] q2[j] == q[j]
            &&& forall|j: int| k <= j < q2.len() ==> #[trigger] q2[j] == q[j + 1]
        }),
{
    lemma_levels_remove_at(levels, li, k);
    levels[li].orders.remove_ensures(k);
}

/// Makers at one price are served in the order they arrived: once the front
/// order of the best opposite level is filled, the order that arrived next
/// there stands at the front.
pub proof fn law_fill_serves_next(b: BookView, t: Order)
    requires
        book_valid(b),
        matching_continues(b, t),
        ({
            let o = side_levels(b, opposite(t.side));
            let q = o[best_index(o, t.side)].orders;
            q.len() > 1 && q[0].quantity <= t.quantity
        }),
    ensures
        ({
            let o = side_levels(b, opposite(t.side));
            let q = o[best_index(o, t.side)].orders;
            let o2 = side_levels(match_step(b, t).0, opposite(t.side));
            &&& o2.len() == o.len()
            &&& o2[best_index(o2, t.side)].price == o[best_index(o, t.side)].price
            &&& o2[best_index(o2, t.side)].orders == q.subrange(1, q.len() as int)
        }),
{
    let os = opposite(t.side);
    let o = side_levels(b, os);
    let li = best_index(o, t.side);
    let q = o[li].orders;
    assert(q.remove(0) =~= q.subrange(1, q.len() as int));
    assert(side_levels(match_step(b, t).0, os) == level_step(o, li, t).0);
}

/// No bid is priced at or above the lowest ask.
pub open spec fn strictly_uncrossed(b: BookView) -> bool {
    match (best_bid_of(b), best_ask_of(b)) {
        (Some(bid), Some(ask)) => bid < ask,
        _ => true,
    }
}

/// Matching an order keeps a book whose bids all stand below its asks so:
/// the taker never rests at a price that reaches the opposite side.
pub proof fn law_match_keeps_strictly_uncrossed(b: BookView, t: Order)
    requires
        book_valid(b),
        strictly_uncrossed(b),
    ensures
        strictly_uncrossed(book_match(b, t).0),
{
    if !crosses(b, t) {
        lemma_add_uncrossed(b, t);
    } else {
        let (b2, t2) = match_loop(b, t);
        let os = opposite(t.side);
        lemma_book_valid_equiv(b);
        lemma_match_loop_frame(b, t);
        law_match_trades(b, t);
        lemma_book_valid_equiv(b2);
        let o = side_levels(b, os);
        let o2 = side_levels(b2, os);
        lemma_valid_equiv(o, os);
        lemma_valid_equiv(o2, os);
        if o2.len() > 0 {
            lemma_subset_best(o2, o, t.side);
        }
        if t.side == Side::Bid {
            assert(b2.bids == b.bids && b2.asks == o2);
        } else {
            assert(b2.asks == b.asks && b2.bids == o2);
        }
        assert(strictly_uncrossed(b2));
        if t2.quantity > 0 {
            if crosses(b2, t2) {
                assert(o2[best_index(o2, t.side)].orders.len() > 0);
            }
            lemma_add_uncrossed(b2, t2);
        }
    }
}

/// What matching answers, for a taker with quantity: it executes as far as
/// it can (the taker's own side untouched), and the quantity executed is
/// what the new trades add up to. It is answered FullFill exactly when all of
/// it executed; otherwise what is left of it is offered as a resting order:
/// it joins the back of the queue at its price and is answered Added, or, if
/// the index cannot take it, the book stays as the executions left it and it
/// is answered Rejected.
pub proof fn law_match_outcome(b: BookView, t: Order)
    requires
        book_valid(b),
        t.quantity > 0,
    ensures
        ({
            let (bm, t2) = match_loop(b, t);
            let (b2, r) = book_match(b, t);
            let executed = trade_volume(b2.trades) - trade_volume(b.trades);
            &&& side_levels(bm, t.side) == side_levels(b, t.side)
            &&& b2.trades == bm.trades
            &&& 0 <= executed <= t.quantity
            &&& t2 == with_quantity(t, (t.quantity - executed) as u64)
            &&& (r == OrderResult::FullFill(t.id) <==> executed == t.quantity)
            &&& executed < t.quantity && can_index(bm, t2) ==> {
                &&& r == OrderResult::Added(t.id)
                &&& b2 == book_add(bm, t2)
                &&& level_at(side_levels(b2, t.side), t.price) == level_at(
                    side_levels(b, t.side),
                    t.price,
                ).push(t2)
            }
            &&& executed < t.quantity && !can_index(bm, t2) ==> r == OrderResult::Rejected(t.id)
                && b2 == bm
        }),
{
    let (bm, t2) = match_loop(b, t);
    lemma_book_valid_equiv(b);
    lemma_match_loop_frame(b, t);
    law_match_trades(b, t);
    if !crosses(b, t) {
        assert(match_loop(b, t) == (b, t));
    }
    lemma_book_valid_equiv(bm);
    lemma_valid_equiv(side_levels(bm, t.side), t.side);
    lemma_levels_add(side_levels(bm, t.side), t2);
}

/// The trades only grow: adding and cancelling leave them as they were, and
/// matching appends to them, keeping the earlier ones in order.
pub proof fn law_trades_only_grow(b: BookView, o: Order, id: OrderId)
    requires
        book_valid(b),
    ensures
        add_outcome(b, o).0.trades == b.trades,
        book_cancel(b, id).trades == b.trades,
        book_match(b, o).0.trades.len() >= b.trades.len(),
        book_match(b, o).0.trades.subrange(0, b.trades.len() as int) == b.trades,
{
    law_match_trades(b, o);
    if !crosses(b, o) {
        assert(match_loop(b, o) == (b, o));
        assert(b.trades.subrange(0, b.trades.len() as int) =~= b.trades);
    }
}

/// The number of orders resting on a side.
pub open spec fn order_count(levels: Seq<Level>) -> int
    decreases levels.len(),
{
    if levels.len() == 0 {
        0
    } else {
        order_count(levels.drop_last()) + levels.last().orders.len()
    }
}

/// The number of orders resting in the book.
pub open spec fn book_order_count(b: BookView) -> int {
    order_count(b.bids) + order_count(b.asks)
}

proof fn lemma_count_update(s: Seq<Level>, i: int, l: Level)
    requires
        0 <= i < s.len(),
    ensures
        order_count(s.update(i, l)) == order_count(s) - s[i].orders.len() + l.orders.len(),
    decreases s.len(),
{
    if i == s.len() - 1 {
        assert(s.update(i, l).drop_last() =~= s.drop_last());
    } else {
        lemma_count_update(s.drop_last(), i, l);
        assert(s.update(i, l).drop_last() =~= s.drop_last().update(i, l));
    }
}

proof fn lemma_count_insert(s: Seq<Level>, i: int, l: Level)
    requires
        0 <= i <= s.len(),
    ensures
        order_count(s.insert(i, l)) == order_count(s) + l.orders.len(),
    decreases s.len(),
{
    if i == s.len() {
        assert(s.insert(i, l).drop_last() =~= s);
    } else {
        lemma_count_insert(s.drop_last(), i, l);
        assert(s.insert(i, l).drop_last() =~= s.drop_last().insert(i, l));
    }
}

proof fn lemma_count_remove(s: Seq<Level>, i: int)
    requires
        0 <= i < s.len(),
    ensures
        order_count(s.remove(i)) == order_count(s) - s[i].orders.len(),
    decreases s.len(),
{
    if i == s.len() - 1 {
        assert(s.remove(i) =~= s.drop_last());
    } else {
        lemma_count_remove(s.drop_last(), i);
        assert(s.remove(i).drop_last() =~= s.drop_last().remove(i));
    }
}

/// Queueing an order adds one to its side; removing one takes one away.
proof fn lemma_count_add_remove(s: Seq<Level>, o: Order, li: int, k: int)
    ensures
        ascending(s) ==> order_count(levels_add(s, o)) == order_count(s) + 1,
        0 <= li < s.len() && 0 <= k < s[li].orders.len() ==> order_count(levels_remove_at(s, li, k))
            == order_count(s) - 1,
{
    if ascending(s) {
        lemma_insert_pos(s, o.price);
        let p = insert_pos(s, o.price);
        if has_level(s, o.price) {
            lemma_count_update(s, p, Level { price: o.price, orders: s[p].orders.push(o) });
        } else {
            lemma_count_insert(s, p, Level { price: o.price, orders: seq![o] });
        }
    }
    if 0 <= li < s.len() && 0 <= k < s[li].orders.len() {
        let rest = s[li].orders.remove(k);
        if rest.len() == 0 {
            lemma_count_remove(s, li);
        } else {
            lemma_count_update(s, li, Level { price: s[li].price, orders: rest });
        }
    }
}

/// Matching takes orders off the opposite side only: the book holds no more
/// orders afterwards than before.
proof fn lemma_count_match_loop(b: BookView, t: Order)
    requires
        book_valid_at(b),
    ensures
        book_order_count(match_loop(b, t).0) <= book_order_count(b),
    decreases t.quantity, side_levels(b, opposite(t.side)).len(), best_level_len(b, t),
{
    if matching_continues(b, t) {
        let (b1, t1) = match_step(b, t);
        lemma_step_valid(b, t);
        lemma_count_match_loop(b1, t1);
        let os = opposite(t.side);
        let o = side_levels(b, os);
        let li = best_index(o, t.side);
        let maker = o[li].orders[0];
        lemma_count_add_remove(o, maker, li, 0);
        if maker.quantity > t.quantity {
            lemma_count_update(
                o,
                li,
                Level {
                    price: o[li].price,
                    orders: o[li].orders.update(0, with_quantity(maker, (maker.quantity - t.quantity) as u64)),
                },
            );
        }
        assert(side_levels(b1, os) == level_step(o, li, t).0);
        assert(side_levels(b1, t.side) == side_levels(b, t.side));
        if t.side == Side::Bid {
            assert(b1.bids == b.bids);
        } else {
            assert(b1.asks == b.asks);
        }
    }
}

/// How many orders rest: an order that is Added adds one, a Rejected one
/// adds none; cancelling a resting order takes one away, cancelling any other
/// id none; matching adds at most the one order left of the taker.
pub proof fn law_order_count(b: BookView, o: Order, id: OrderId)
    requires
        book_valid(b),
    ensures
        book_order_count(add_outcome(b, o).0) == book_order_count(b) + if can_index(b, o) {
            1int
        } else {
            0int
        },
        book_order_count(book_cancel(b, id)) == book_order_count(b) - if rests(b, id) {
            1int
        } else {
            0int
        },
        book_order_count(book_match(b, o).0) <= book_order_count(b) + 1,
{
    lemma_book_valid_equiv(b);
    lemma_valid_equiv(b.bids, Side::Bid);
    lemma_valid_equiv(b.asks, Side::Ask);
    lemma_count_add_remove(side_levels(b, o.side), o, 0, 0);
    // cancelling
    lemma_rests_equiv(b.bids, id);
    lemma_rests_equiv(b.asks, id);
    if rests_on(b.bids, id) {
        let (li, k) = choose|li: int, k: int| holds_at(b.bids, id, li, k);
        lemma_count_add_remove(b.bids, o, li, k);
        assert(!rests_on(b.asks, id)) by {
            if rests_on(b.asks, id) {
                let (l2, k2) = choose|l2: int, k2: int| holds_at(b.asks, id, l2, k2);
                assert(b.bids[li].orders[k].id == b.asks[l2].orders[k2].id);
            }
        }
    } else if rests_on(b.asks, id) {
        let (li, k) = choose|li: int, k: int| holds_at(b.asks, id, li, k);
        lemma_count_add_remove(b.asks, o, li, k);
    }
    // matching
    lemma_count_match_loop(b, o);
    let (bm, t2) = match_loop(b, o);
    lemma_match_loop_frame(b, o);
    lemma_book_valid_equiv(bm);
    lemma_valid_equiv(side_levels(bm, o.side), o.side);
    lemma_count_add_remove(side_levels(bm, o.side), t2, 0, 0);
    if !crosses(b, o) {
        assert(match_loop(b, o) == (b, o));
    }
    if o.side == Side::Bid {
        assert(book_add(b, o).asks == b.asks);
        assert(book_add(bm, t2).asks == bm.asks);
    } else {
        assert(book_add(b, o).bids == b.bids);
        assert(book_add(bm, t2).bids == bm.bids);
    }
}

/// The prices at which orders rest on a side.
pub open spec fn resting_prices(levels: Seq<Level>) -> Set<Price> {
    Set::new(|p: Price| level_at(levels, p).len() > 0)
}

/// A side has one level per price at which orders rest: its depth is the
/// number of those prices.
pub proof fn law_depth_is_price_count(b: BookView)
    requires
        book_valid(b),
    ensures
        resting_prices(b.bids).finite(),
        resting_prices(b.bids).len() == b.bids.len(),
        resting_prices(b.asks).finite(),
        resting_prices(b.asks).len() == b.asks.len(),
{
    lemma_book_valid_equiv(b);
    lemma_valid_equiv(b.bids, Side::Bid);
    lemma_valid_equiv(b.asks, Side::Ask);
    lemma_price_count(b.bids, Side::Bid);
    lemma_price_count(b.asks, Side::Ask);
}

proof fn lemma_price_count(s: Seq<Level>, side: Side)
    requires
        crate::model::levels_valid(s, side),
    ensures
        resting_prices(s).finite(),
        resting_prices(s).len() == s.len(),
{
    let ps = s.map_values(|l: Level| l.price);
    assert(ps.no_duplicates()) by {
        assert forall|i: int, j: int| 0 <= i < ps.len() && 0 <= j < ps.len() && i != j implies ps[i]
            != ps[j] by {
            if i < j {
                assert(s[i].price < s[j].price);
            } else {
                assert(s[j].price < s[i].price);
            }
        }
    }
    ps.unique_seq_to_set();
    vstd::seq_lib::seq_to_set_is_finite(ps);
    assert(ps.to_set() =~= resting_prices(s)) by {
        assert forall|p: Price| ps.to_set().contains(p) <==> #[trigger] resting_prices(s).contains(p) by {
            if ps.to_set().contains(p) {
                let i = choose|i: int| 0 <= i < ps.len() && ps[i] == p;
                lemma_level_position(s, p, i);
                assert(s[i].orders.len() > 0);
            }
            if resting_prices(s).contains(p) {
                lemma_insert_pos(s, p);
                let i = insert_pos(s, p);
                assert(ps[i] == p);
            }
        }
    }
}

/// Total quantity of the trades in `ts` made at price `p`.
pub open spec fn volume_at(ts: Seq<Trade>, p: Price) -> int
    decreases ts.len(),
{
    if ts.len() == 0 {
        0
    } else {
        volume_at(ts.drop_last(), p) + if ts.last().price == p {
            ts.last().quantity as int
        } else {
            0int
        }
    }
}

/// One execution takes from the best opposite level exactly the quantity it
/// trades there, and leaves every other price alone.
proof fn lemma_step_takes_traded(b: BookView, t: Order)
    requires
        book_valid_at(b),
        matching_continues(b, t),
    ensures
        ({
            let os = opposite(t.side);
            let b1 = match_step(b, t).0;
            forall|p: Price|
                #[trigger] sum_quantity(level_at(side_levels(b, os), p)) == sum_quantity(
                    level_at(side_levels(b1, os), p),
                ) + volume_at(b1.trades, p) - volume_at(b.trades, p)
        }),
{
    let os = opposite(t.side);
    let o = side_levels(b, os);
    let li = best_index(o, t.side);
    let lvl = o[li];
    let maker = lvl.orders[0];
    let (rest, t2, tr) = level_step(o, li, t);
    let b1 = match_step(b, t).0;
    assert(ascending(o)) by {
        lemma_valid_equiv(o, os);
    }
    lemma_level_at_index(o, li);
    assert(side_levels(b1, os) == rest);
    assert(b1.trades == b.trades.push(tr));
    assert(b1.trades.drop_last() =~= b.trades);
    let nq = lvl.orders.update(0, with_quantity(maker, (maker.quantity - tr.quantity) as u64));
    if maker.quantity <= t.quantity {
        lemma_levels_remove_at(o, li, 0);
        lemma_sum_remove(lvl.orders, 0);
    } else {
        lemma_update_level(o, li, nq);
        lemma_sum_update(lvl.orders, 0, with_quantity(maker, (maker.quantity - tr.quantity) as u64));
    }
    assert forall|p: Price|
        #[trigger] sum_quantity(level_at(o, p)) == sum_quantity(level_at(rest, p)) + volume_at(
            b1.trades,
            p,
        ) - volume_at(b.trades, p) by {
        if p == lvl.price {
            if maker.quantity <= t.quantity {
                assert(level_at(rest, p) == lvl.orders.remove(0));
            } else {
                assert(level_at(rest, p) == nq);
            }
        } else {
            assert(level_at(rest, p) == level_at(o, p));
        }
    }
}

/// Matching takes from each price level of the opposite side exactly the
/// quantity traded at that price, and from no other.
pub proof fn law_match_takes_traded(b: BookView, t: Order)
    requires
        book_valid(b),
    ensures
        ({
            let os = opposite(t.side);
            let bm = match_loop(b, t).0;
            forall|p: Price|
                #[trigger] sum_quantity(level_at(side_levels(b, os), p)) == sum_quantity(
                    level_at(side_levels(bm, os), p),
                ) + volume_at(bm.trades, p) - volume_at(b.trades, p)
        }),
    decreases t.quantity, side_levels(b, opposite(t.side)).len(), best_level_len(b, t),
{
    lemma_book_valid_equiv(b);
    if matching_continues(b, t) {
        let (b1, t1) = match_step(b, t);
        let os = opposite(t.side);
        lemma_step_valid(b, t);
        lemma_step_takes_traded(b, t);
        lemma_book_valid_equiv(b1);
        law_match_takes_traded(b1, t1);
        assert(opposite(t1.side) == os);
        let bm = match_loop(b, t).0;
        assert forall|p: Price|
            #[trigger] sum_quantity(level_at(side_levels(b, os), p)) == sum_quantity(
                level_at(side_levels(bm, os), p),
            ) + volume_at(bm.trades, p) - volume_at(b.trades, p) by {
            assert(sum_quantity(level_at(side_levels(b, os), p)) == sum_quantity(
                level_at(side_levels(b1, os), p),
            ) + volume_at(b1.trades, p) - volume_at(b.trades, p));
            assert(sum_quantity(level_at(side_levels(b1, os), p)) == sum_quantity(
                level_at(side_levels(bm, os), p),
            ) + volume_at(bm.trades, p) - volume_at(b1.trades, p));
        }
    }
}

/// The quantity of the orders with id `id` in queue `q`.
pub open spec fn queue_quantity_of(q: Seq<Order>, id: OrderId) -> int
    decreases q.len(),
{
    if q.len() == 0 {
        0
    } else {
        queue_quantity_of(q.drop_last(), id) + if q.last().id == id {
            q.last().quantity as int
        } else {
            0int
        }
    }
}

/// The quantity resting under id `id` on a side: that of the order with this
/// id, or 0 if none rests there.
pub open spec fn resting_quantity(levels: Seq<Level>, id: OrderId) -> int
    decreases levels.len(),
{
    if levels.len() == 0 {
        0
    } else {
        resting_quantity(levels.drop_last(), id) + queue_quantity_of(levels.last().orders, id)
    }
}

/// Total quantity of the trades in `ts` against the maker with id `id`.
pub open spec fn maker_volume(ts: Seq<Trade>, id: OrderId) -> int
    decreases ts.len(),
{
    if ts.len() == 0 {
        0
    } else {
        maker_volume(ts.drop_last(), id) + if ts.last().maker_id == id {
            ts.last().quantity as int
        } else {
            0int
        }
    }
}

/// The quantity `o` counts for under id `id`.
pub open spec fn quantity_if(o: Order, id: OrderId) -> int {
    if o.id == id {
        o.quantity as int
    } else {
        0
    }
}

proof fn lemma_qq_update(q: Seq<Order>, i: int, o: Order, id: OrderId)
    requires
        0 <= i < q.len(),
    ensures
        queue_quantity_of(q.update(i, o), id) == queue_quantity_of(q, id) - quantity_if(q[i], id)
            + quantity_if(o, id),
    decreases q.len(),
{
    if i == q.len() - 1 {
        assert(q.update(i, o).drop_last() =~= q.drop_last());
    } else {
        lemma_qq_update(q.drop_last(), i, o, id);
        assert(q.update(i, o).drop_last() =~= q.drop_last().update(i, o));
    }
}

proof fn lemma_qq_remove(q: Seq<Order>, i: int, id: OrderId)
    requires
        0 <= i < q.len(),
    ensures
        queue_quantity_of(q.remove(i), id) == queue_quantity_of(q, id) - quantity_if(q[i], id),
    decreases q.len(),
{
    if i == q.len() - 1 {
        assert(q.remove(i) =~= q.drop_last());
    } else {
        lemma_qq_remove(q.drop_last(), i, id);
        assert(q.remove(i).drop_last() =~= q.drop_last().remove(i));
    }
}

proof fn lemma_rq_update(s: Seq<Level>, i: int, l: Level, id: OrderId)
    requires
        0 <= i < s.len(),
    ensures
        resting_quantity(s.update(i, l), id) == resting_quantity(s, id) - queue_quantity_of(
            s[i].orders,
            id,
        ) + queue_quantity_of(l.orders, id),
    decreases s.len(),
{
    if i == s.len() - 1 {
        assert(s.update(i, l).drop_last() =~= s.drop_last());
    } else {
        lemma_rq_update(s.drop_last(), i, l, id);
        assert(s.update(i, l).drop_last() =~= s.drop_last().update(i, l));
    }
}

proof fn lemma_rq_remove(s: Seq<Level>, i: int, id: OrderId)
    requires
        0 <= i < s.len(),
    ensures
        resting_quantity(s.remove(i), id) == resting_quantity(s, id) - queue_quantity_of(
            s[i].orders,
            id,
        ),
    decreases s.len(),
{
    if i == s.len() - 1 {
        assert(s.remove(i) =~= s.drop_last());
    } else {
        lemma_rq_remove(s.drop_last(), i, id);
        assert(s.remove(i).drop_last() =~= s.drop_last().remove(i));
    }
}

/// One execution takes from its maker exactly the quantity it trades, and
/// from no other order.
proof fn lemma_step_maker(b: BookView, t: Order, id: OrderId)
    requires
        matching_continues(b, t),
    ensures
        ({
            let os = opposite(t.side);
            let b1 = match_step(b, t).0;
            resting_quantity(side_levels(b, os), id) == resting_quantity(side_levels(b1, os), id)
                + maker_volume(b1.trades, id) - maker_volume(b.trades, id)
        }),
{
    let os = opposite(t.side);
    let o = side_levels(b, os);
    let li = best_index(o, t.side);
    let lvl = o[li];
    let q = lvl.orders;
    let maker = q[0];
    let (rest, t2, tr) = level_step(o, li, t);
    let b1 = match_step(b, t).0;
    assert(side_levels(b1, os) == rest);
    assert(b1.trades == b.trades.push(tr));
    assert(b1.trades.drop_last() =~= b.trades);
    lemma_qq_remove(q, 0, id);
    if maker.quantity <= t.quantity {
        let rq = q.remove(0);
        if rq.len() == 0 {
            lemma_rq_remove(o, li, id);
        } else {
            lemma_rq_update(o, li, Level { price: lvl.price, orders: rq }, id);
        }
    } else {
        let nm = with_quantity(maker, (maker.quantity - t.quantity) as u64);
        lemma_qq_update(q, 0, nm, id);
        lemma_rq_update(o, li, Level { price: lvl.price, orders: q.update(0, nm) }, id);
    }
}

/// Each maker loses exactly the quantity it trades: for every id, the
/// quantity resting under it on the opposite side falls by the total of the
/// new trades against it, and by nothing else.
pub proof fn law_makers_lose_traded(b: BookView, t: Order, id: OrderId)
    requires
        book_valid(b),
    ensures
        ({
            let os = opposite(t.side);
            let bm = match_loop(b, t).0;
            resting_quantity(side_levels(b, os), id) == resting_quantity(side_levels(bm, os), id)
                + maker_volume(bm.trades, id) - maker_volume(b.trades, id)
        }),
    decreases t.quantity, side_levels(b, opposite(t.side)).len(), best_level_len(b, t),
{
    lemma_book_valid_equiv(b);
    if matching_continues(b, t) {
        let (b1, t1) = match_step(b, t);
        lemma_step_valid(b, t);
        lemma_step_maker(b, t, id);
        lemma_book_valid_equiv(b1);
        law_makers_lose_traded(b1, t1, id);
    }
}

proof fn lemma_qq_absent(q: Seq<Order>, id: OrderId)
    requires
        forall|j: int| 0 <= j < q.len() ==> #[trigger] q[j].id != id,
    ensures
        queue_quantity_of(q, id) == 0,
    decreases q.len(),
{
    if q.len() > 0 {
        assert(q[q.len() - 1].id != id);
        lemma_qq_absent(q.drop_last(), id);
    }
}

proof fn lemma_qq_single(q: Seq<Order>, k: int)
    requires
        0 <= k < q.len(),
        forall|j: int| 0 <= j < q.len() && j != k ==> #[trigger] q[j].id != q[k].id,
    ensures
        queue_quantity_of(q, q[k].id) == q[k].quantity,
    decreases q.len(),
{
    let d = q.drop_last();
    if k == q.len() - 1 {
        assert forall|j: int| 0 <= j < d.len() implies #[trigger] d[j].id != q[k].id by {
            assert(d[j] == q[j]);
        }
        lemma_qq_absent(d, q[k].id);
    } else {
        assert(q[q.len() - 1].id != q[k].id);
        assert forall|j: int| 0 <= j < d.len() && j != k implies #[trigger] d[j].id != d[k].id by {
            assert(d[j] == q[j]);
        }
        lemma_qq_single(d, k);
    }
}

proof fn lemma_rq_absent(levels: Seq<Level>, id: OrderId)
    requires
        !rests_on(levels, id),
    ensures
        resting_quantity(levels, id) == 0,
    decreases levels.len(),
{
    if levels.len() > 0 {
        let d = levels.drop_last();
        let last = levels.len() - 1;
        assert forall|j: int| 0 <= j < levels[last].orders.len() implies #[trigger] levels[last].orders[j].id
            != id by {
            if levels[last].orders[j].id == id {
                assert(holds_at(levels, id, last, j));
            }
        }
        lemma_qq_absent(levels[last].orders, id);
        assert(!rests_on(d, id)) by {
            if rests_on(d, id) {
                let (l2, k2) = choose|l2: int, k2: int| holds_at(d, id, l2, k2);
                assert(holds_at(levels, id, l2, k2));
            }
        }
        lemma_rq_absent(d, id);
    }
}

proof fn lemma_rq_single(levels: Seq<Level>, li: int, k: int)
    requires
        crate::model::ids_unique(levels),
        0 <= li < levels.len(),
        0 <= k < levels[li].orders.len(),
    ensures
        resting_quantity(levels, levels[li].orders[k].id) == levels[li].orders[k].quantity,
    decreases levels.len(),
{
    let id = levels[li].orders[k].id;
    let d = levels.drop_last();
    let last = levels.len() - 1;
    let q = levels[last].orders;
    if li == last {
        assert forall|j: int| 0 <= j < q.len() && j != k implies #[trigger] q[j].id != q[k].id by {
            if q[j].id == q[k].id {
                assert(levels[last].orders[j].id == levels[li].orders[k].id);
            }
        }
        lemma_qq_single(q, k);
        assert(!rests_on(d, id)) by {
            if rests_on(d, id) {
                let (l2, k2) = choose|l2: int, k2: int| holds_at(d, id, l2, k2);
                assert(levels[l2].orders[k2].id == levels[li].orders[k].id);
            }
        }
        lemma_rq_absent(d, id);
    } else {
        assert forall|j: int| 0 <= j < q.len() implies #[trigger] q[j].id != id by {
            if q[j].id == id {
                assert(levels[last].orders[j].id == levels[li].orders[k].id);
            }
        }
        lemma_qq_absent(q, id);
        assert(crate::model::ids_unique(d)) by {
            assert forall|l1: int, k1: int, l2: int, k2: int|
                0 <= l1 < d.len() && 0 <= k1 < d[l1].orders.len() && 0 <= l2 < d.len() && 0 <= k2
                    < d[l2].orders.len() && #[trigger] d[l1].orders[k1].id == #[trigger] d[l2].orders[k2].id
                    implies l1 == l2 && k1 == k2 by {
                assert(levels[l1].orders[k1].id == levels[l2].orders[k2].id);
            }
        }
        assert(d[li] == levels[li]);
        lemma_rq_single(d, li, k);
    }
}

/// In a side where no id occurs twice, the quantity resting under an id is
/// the quantity of the order with that id, or 0 if none rests there.
pub proof fn law_resting_quantity(levels: Seq<Level>, id: OrderId)
    requires
        crate::model::ids_unique(levels),
    ensures
        !rests_on(levels, id) ==> resting_quantity(levels, id) == 0,
        forall|li: int, k: int|
            #[trigger] holds_at(levels, id, li, k) ==> resting_quantity(levels, id)
                == levels[li].orders[k].quantity,
{
    if !rests_on(levels, id) {
        lemma_rq_absent(levels, id);
    }
    assert forall|li: int, k: int| #[trigger] holds_at(levels, id, li, k) implies resting_quantity(levels, id)
        == levels[li].orders[k].quantity by {
        lemma_rq_single(levels, li, k);
    }
}

/// A call on a price level, as its contract describes it: `add` of an
/// order, or `remove_at` of a position.
pub enum LevelCall {
    Add(Order),
    RemoveAt(usize),
}

/// The queue after `calls`, made in turn on a level holding `orders`; None
/// once a removal names a position the queue does not have.
pub open spec fn level_after_calls(orders: Seq<Order>, calls: Seq<LevelCall>) -> Option<Seq<Order>>
    decreases calls.len(),
{
    if calls.len() == 0 {
        Some(orders)
    } else {
        match level_after_calls(orders, calls.drop_last()) {
            None => None,
            Some(q) => match calls.last() {
                LevelCall::Add(o) => Some(q.push(o)),
                LevelCall::RemoveAt(i) => if i < q.len() {
                    Some(q.remove(i as int))
                } else {
                    None
                },
            },
        }
    }
}

/// The number of additions among `calls`.
pub open spec fn count_adds(calls: Seq<LevelCall>) -> int
    decreases calls.len(),
{
    if calls.len() == 0 {
        0
    } else {
        count_adds(calls.drop_last()) + if calls.last() is Add {
            1int
        } else {
            0int
        }
    }
}

/// A new level that takes `k` additions and `r` removals of positions it
/// has, in any order, holds `k - r` orders.
pub proof fn law_level_count(calls: Seq<LevelCall>)
    requires
        level_after_calls(Seq::empty(), calls) is Some,
    ensures
        level_after_calls(Seq::empty(), calls)->0.len() == count_adds(calls) - (calls.len()
            - count_adds(calls)),
    decreases calls.len(),
{
    if calls.len() > 0 {
        law_level_count(calls.drop_last());
    }
}

/// A call on a book, as the contracts of `add_order`, `cancel_order`,
/// `match_order` and `drain_trades` describe it.
pub enum BookCall {
    Add(Order),
    Cancel(OrderId),
    Match(Order),
    Drain,
}

/// The book after one call.
pub open spec fn book_after_call(b: BookView, c: BookCall) -> BookView {
    match c {
        BookCall::Add(o) => add_outcome(b, o).0,
        BookCall::Cancel(id) => book_cancel(b, id),
        BookCall::Match(t) => book_match(b, t).0,
        BookCall::Drain => BookView { trades: Seq::empty(), ..b },
    }
}

/// The book after `calls`, made in turn.
pub open spec fn book_after_calls(b: BookView, calls: Seq<BookCall>) -> BookView
    decreases calls.len(),
{
    if calls.len() == 0 {
        b
    } else {
        book_after_call(book_after_calls(b, calls.drop_last()), calls.last())
    }
}

/// The trades that one call makes: those of a match, in execution order;
/// none for any other call.
pub open spec fn trades_made(b: BookView, c: BookCall) -> Seq<Trade> {
    match c {
        BookCall::Match(t) => book_match(b, t).0.trades.subrange(
            b.trades.len() as int,
            book_match(b, t).0.trades.len() as int,
        ),
        _ => Seq::empty(),
    }
}

/// The trade log after `calls`: the trades the book started with, emptied
/// at each drain, and extended by the trades of each match in turn.
pub open spec fn trade_log(b: BookView, calls: Seq<BookCall>) -> Seq<Trade>
    decreases calls.len(),
{
    if calls.len() == 0 {
        b.trades
    } else {
        let c = calls.last();
        match c {
            BookCall::Drain => Seq::empty(),
            _ => trade_log(b, calls.drop_last()) + trades_made(
                book_after_calls(b, calls.drop_last()),
                c,
            ),
        }
    }
}

/// One call keeps a well-formed book well formed; only a match adds to the
/// trades, appending the trades it makes.
proof fn lemma_call(b: BookView, c: BookCall)
    requires
        book_valid(b),
    ensures
        book_valid(book_after_call(b, c)),
        c !is Drain ==> book_after_call(b, c).trades == b.trades + trades_made(b, c),
{
    match c {
        BookCall::Add(o) => {
            law_add_rests(b, o);
            law_trades_only_grow(b, o, 0);
            assert(b.trades + Seq::<Trade>::empty() =~= b.trades);
        },
        BookCall::Cancel(id) => {
            law_cancel_removes(b, id);
            assert(b.trades + Seq::<Trade>::empty() =~= b.trades);
        },
        BookCall::Match(t) => {
            law_trades_only_grow(b, t, 0);
            let b2 = book_match(b, t).0;
            assert(b2.trades =~= b.trades + trades_made(b, c)) by {
                assert forall|i: int| 0 <= i < b.trades.len() implies b2.trades[i] == b.trades[i] by {
                    assert(b2.trades.subrange(0, b.trades.len() as int)[i] == b.trades[i]);
                }
            }
            let (bm, t2) = match_loop(b, t);
            lemma_book_valid_equiv(b);
            lemma_match_loop_frame(b, t);
            lemma_book_valid_equiv(bm);
            law_add_rests(bm, t2);
            if !crosses(b, t) {
                law_add_rests(b, t);
            }
        },
        BookCall::Drain => {},
    }
}

/// What `trades()` gives: every trade made by `match_order` since the book
/// was made or last drained, in execution order; adding and cancelling make
/// none. The book stays well formed throughout.
pub proof fn law_trade_log(b: BookView, calls: Seq<BookCall>)
    requires
        book_valid(b),
    ensures
        book_valid(book_after_calls(b, calls)),
        book_after_calls(b, calls).trades == trade_log(b, calls),
    decreases calls.len(),
{
    if calls.len() > 0 {
        law_trade_log(b, calls.drop_last());
        lemma_call(book_after_calls(b, calls.drop_last()), calls.last());
    }
}

} // verus!
