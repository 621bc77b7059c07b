use vstd::prelude::*;
use crate::lemmas::{lemma_queue_level, queue_unique};
use crate::model::{
    BookView, add_outcome, ascending, mid_price_of, spread_of, uncrossed, best_ask_of, best_bid_of,
    best_index, best_level_len, book_add, book_cancel, book_match, can_index, can_rest,
    cancel_result, has_level, volume_fits,
    insert_pos, lemma_insert_pos, lemma_level_at_index, lemma_level_position, level_at, levels_add,
    levels_remove_at, levels_view, match_fits, lemma_step_local, trade_volume, match_loop, match_step, matching_continues, opposite,
    rests, side_levels, with_side_levels,
};
use crate::order_index::{
    MetaIndex, OrderMeta, meta_entries, meta_map_get, meta_map_insert, meta_map_new,
    meta_map_remove,
};
use crate::book_invariant::{
    front_quantity_left, book_inv, levels_wf, lemma_add_book, lemma_after_removal,
    lemma_cancel_book, lemma_covers_rests, queued_between, reindexed,
    lemma_fill_step, lemma_inv_empty, lemma_inv_facts, lemma_inv_trades, lemma_inv_update_front,
    lemma_locate, lemma_meta_dom, lemma_partial_step,
};
use crate::price_level::{Level, PriceLevel, sum_quantity};
use crate::types::{Order, OrderId, OrderResult, Price, Quantity, Side, Trade, with_quantity};

verus! {

/// Binary search of an ascending side for the level priced `price`:
/// `Ok(i)` where it stands, or `Err(i)` where it would be inserted.
fn find_level(levels: &Vec<PriceLevel>, price: Price) -> (r: Result<usize, usize>)
    requires
        ascending(levels_view(levels@)),
    ensures
        match r {
            Ok(i) => i == insert_pos(levels_view(levels@), price) && has_level(
                levels_view(levels@),
                price,
            ),
            Err(i) => i == insert_pos(levels_view(levels@), price) && !has_level(
                levels_view(levels@),
                price,
            ),
        },
{
    let ghost view = levels_view(levels@);
    proof {
        lemma_insert_pos(view, price);
    }
    let mut lo: usize = 0;
    let mut hi: usize = levels.len();
    while lo < hi
        invariant
            view == levels_view(levels@),
            ascending(view),
            0 <= lo <= hi <= levels@.len(),
            forall|j: int| 0 <= j < lo ==> view[j].price < price,
            forall|j: int| hi <= j < view.len() ==> view[j].price > price,
        decreases hi - lo,
    {
        let mid = lo + (hi - lo) / 2;
        let p = levels[mid].price();
        assert(view[mid as int].price == p);
        if p < price {
            lo = mid + 1;
        } else if p > price {
            hi = mid;
        } else {
            proof {
                lemma_level_position(view, price, mid as int);
            }
            return Ok(mid);
        }
    }
    proof {
        lemma_insert_pos(view, price);
        let k = insert_pos(view, price);
        if k < lo {
            assert(view[k].price < price);
        }
        if lo < k {
            assert(view[lo as int].price >= price);
        }
    }
    Err(lo)
}

/// Queue `o` on a side: find its level, creating it in price order if there is
/// none, and append `o`. Returns the position `o` takes in its queue.
fn rest_in_levels(levels: &mut Vec<PriceLevel>, order: Order) -> (idx: usize)
    requires
        levels_wf(old(levels)@),
        ascending(levels_view(old(levels)@)),
        sum_quantity(level_at(levels_view(old(levels)@), order.price)) + order.quantity <= u64::MAX,
    ensures
        levels_wf(final(levels)@),
        levels_view(final(levels)@) == levels_add(levels_view(old(levels)@), order),
        idx == level_at(levels_view(old(levels)@), order.price).len(),
{
    let ghost view = levels_view(levels@);
    proof {
        lemma_insert_pos(view, order.price);
    }
    let level_idx = match find_level(levels, order.price) {
        Ok(i) => i,
        Err(i) => {
            let lvl = PriceLevel::new(order.price);
            levels.insert(i, lvl);
            assert(levels_view(levels@) =~= view.insert(i as int, lvl@));
            i
        },
    };
    assert(levels@[level_idx as int]@ == levels_view(levels@)[level_idx as int]);
    let idx = levels[level_idx].add(order);
    proof {
        if has_level(view, order.price) {
            assert(levels_view(levels@) =~= levels_add(view, order));
        } else {
            assert(seq![order] =~= Seq::<Order>::empty().push(order));
            assert(levels_view(levels@) =~= levels_add(view, order));
        }
    }
    idx
}

/// Take the order at position `k` out of level `li`; the orders behind it
/// move up one place, and a level left empty is removed. Returns whether the
/// level was removed.
fn remove_order_at(levels: &mut Vec<PriceLevel>, li: usize, k: usize) -> (now_empty: bool)
    requires
        levels_wf(old(levels)@),
        li < old(levels)@.len(),
        k < old(levels)@[li as int]@.orders.len(),
    ensures
        levels_wf(final(levels)@),
        levels_view(final(levels)@) == levels_remove_at(levels_view(old(levels)@), li as int, k as int),
        now_empty == (old(levels)@[li as int]@.orders.len() == 1),
{
    let ghost view = levels_view(levels@);
    assert(levels@[li as int].wf());
    levels[li].remove_at(k);
    let now_empty = levels[li].is_empty();
    if now_empty {
        levels.remove(li);
        assert(levels_view(levels@) =~= view.remove(li as int));
    } else {
        assert(levels_view(levels@) =~= levels_remove_at(view, li as int, k as int));
    }
    now_empty
}

/// Trades `t1` that extend `t0` by trades at `price` of taker `id`, followed
/// by one more such trade, still extend `t0` that way.
proof fn lemma_trades_extend(t0: Seq<Trade>, t1: Seq<Trade>, t2: Seq<Trade>, price: Price, id: OrderId)
    requires
        t1.len() >= t0.len(),
        t1.subrange(0, t0.len() as int) == t0,
        forall|i: int|
            t0.len() <= i < t1.len() ==> {
                &&& (#[trigger] t1[i]).price == price
                &&& t1[i].taker_id == id
            },
        t2.len() == t1.len() + 1,
        t2.drop_last() == t1,
        t2.last().price == price,
        t2.last().taker_id == id,
    ensures
        t2.subrange(0, t0.len() as int) == t0,
        forall|i: int|
            t0.len() <= i < t2.len() ==> {
                &&& (#[trigger] t2[i]).price == price
                &&& t2[i].taker_id == id
            },
{
    assert forall|i: int| 0 <= i < t0.len() implies t2[i] == t0[i] by {
        assert(t2[i] == t2.drop_last()[i]);
        assert(t1[i] == t1.subrange(0, t0.len() as int)[i]);
    }
    assert(t2.subrange(0, t0.len() as int) =~= t0);
    assert forall|i: int| t0.len() <= i < t2.len() implies {
        &&& (#[trigger] t2[i]).price == price
        &&& t2[i].taker_id == id
    } by {
        if i < t1.len() {
            assert(t2[i] == t2.drop_last()[i]);
        }
    }
}

/// A limit order book: bids and asks as price levels in ascending price order,
/// an index from order id to where the order rests, and the trades executed.
#[derive(Debug)]
pub struct OrderBook {
    bids: Vec<PriceLevel>,
    asks: Vec<PriceLevel>,
    order_metadata: MetaIndex,
    trades: Vec<Trade>,
}

impl View for OrderBook {
    type V = BookView;

    closed spec fn view(&self) -> BookView {
        BookView {
            bids: levels_view(self.bids@),
            asks: levels_view(self.asks@),
            trades: self.trades@,
        }
    }
}

impl OrderBook {
    /// The book is well formed and its index agrees with it.
    pub closed spec fn wf(&self) -> bool {
        &&& levels_wf(self.bids@)
        &&& levels_wf(self.asks@)
        &&& book_inv(self@, meta_entries(self.order_metadata))
    }

    /// A book that satisfies its invariant holds a well-formed `BookView`, to
    /// which the laws of the library apply.
    pub proof fn lemma_valid(&self)
        requires
            self.wf(),
        ensures
            crate::model::book_valid(self@),
    {
        lemma_inv_facts(self@, meta_entries(self.order_metadata));
    }

    pub fn new() -> (book: Self)
        ensures
            book.wf(),
            book@.bids.len() == 0,
            book@.asks.len() == 0,
            book@.trades.len() == 0,
    {
        let book = OrderBook {
            bids: Vec::<PriceLevel>::new(),
            asks: Vec::<PriceLevel>::new(),
            order_metadata: meta_map_new(),
            trades: Vec::<Trade>::new(),
        };
        proof {
            assert(book@.bids =~= Seq::<Level>::empty());
            assert(book@.asks =~= Seq::<Level>::empty());
            lemma_inv_empty(book@, meta_entries(book.order_metadata));
        }
        book
    }

    /// Insert a new resting order. Returns Added, or Rejected (with the book
    /// unchanged) when its id already rests in the book or its price level
    /// holds as many orders as the index can place.
    pub fn add_order(&mut self, order: Order) -> (result: OrderResult)
        requires
            old(self).wf(),
            volume_fits(old(self)@, order),
        ensures
            final(self).wf(),
            (final(self)@, result) == add_outcome(old(self)@, order),
    {
        let ghost b0 = self@;
        let ghost m0 = meta_entries(self.order_metadata);
        proof {
            lemma_inv_facts(b0, m0);
        }
        if !self.indexable(&order) {
            return OrderResult::Rejected(order.id);
        }
        let id = order.id;
        let price = order.price;
        let side = order.side;
        let order_idx = match side {
            Side::Bid => rest_in_levels(&mut self.bids, order),
            Side::Ask => rest_in_levels(&mut self.asks, order),
        };
        let meta = OrderMeta::new(price, order_idx, side);
        meta_map_insert(&mut self.order_metadata, id, meta);
        proof {
            lemma_add_book(b0, m0, order, meta);
            assert(self@ =~= book_add(b0, order));
        }
        OrderResult::Added(id)
    }

    /// Remove a resting order by id. Returns Cancelled or NotFound.
    pub fn cancel_order(&mut self, id: OrderId) -> (result: OrderResult)
        requires
            old(self).wf(),
        ensures
            final(self).wf(),
            final(self)@ == book_cancel(old(self)@, id),
            result == cancel_result(old(self)@, id),
    {
        let ghost b0 = self@;
        let ghost m0 = meta_entries(self.order_metadata);
        proof {
            lemma_inv_facts(b0, m0);
        }
        match meta_map_remove(&mut self.order_metadata, id) {
            Some(meta) => {
                let vec_idx = meta.idx();
                let price = meta.price();
                let side = meta.side();
                let ghost s = side_levels(b0, side);
                proof {
                    lemma_locate(b0, m0, id);
                    lemma_queue_level(s, price);
                }
                match self.side_find_level(side, price) {
                    Ok(li) => {
                        proof {
                            lemma_after_removal(b0, m0, side, li as int, vec_idx as int);
                        }
                        let now_empty = self.side_remove_order(side, li, vec_idx);
                        let ghost m1 = meta_entries(self.order_metadata);
                        if !now_empty {
                            self.reindex_level(side, li, vec_idx);
                        }
                        proof {
                            let q2 = s[li as int].orders.remove(vec_idx as int);
                            assert(reindexed(m1, meta_entries(self.order_metadata), q2, vec_idx as int, s[li as int].price, side));
                            lemma_cancel_book(b0, m0, side, li as int, vec_idx as int, meta_entries(self.order_metadata));
                            assert(self@ =~= book_cancel(b0, id));
                        }
                        OrderResult::Cancelled(id)
                    },
                    Err(_) => {
                        proof {
                            assert(false);
                        }
                        OrderResult::Cancelled(id)
                    },
                }
            },
            None => {
                proof {
                    if rests(b0, id) {
                        lemma_covers_rests(b0, m0, id);
                    }
                    assert(meta_entries(self.order_metadata) =~= m0);
                    assert(self@ =~= book_cancel(b0, id));
                }
                OrderResult::NotFound(id)
            },
        }
    }

    /// Match an incoming order against the opposite side, best price first
    /// and front of queue first; whatever is left of it is offered to
    /// `add_order`. Returns FullFill when nothing is left, else what
    /// `add_order` answers for the rest (Added or Rejected).
    pub fn match_order(&mut self, taker_order: Order) -> (result: OrderResult)
        requires
            old(self).wf(),
            match_fits(old(self)@, taker_order),
        ensures
            final(self).wf(),
            (final(self)@, result) == book_match(old(self)@, taker_order),
    {
        let ghost b0 = self@;
        let ghost t0 = taker_order;
        let mut taker_order = taker_order;
        let crosses_spread = match taker_order.side {
            Side::Bid => match self.best_ask() {
                Some(ask) => ask <= taker_order.price,
                None => false,
            },
            Side::Ask => match self.best_bid() {
                Some(bid) => bid >= taker_order.price,
                None => false,
            },
        };
        if !crosses_spread {
            return self.add_order(taker_order);
        }
        while taker_order.quantity > 0
            invariant
                self.wf(),
                match_loop(self@, taker_order) == match_loop(b0, t0),
                taker_order == with_quantity(t0, taker_order.quantity),
                taker_order.quantity <= t0.quantity,
            ensures
                self.wf(),
                match_loop(self@, taker_order) == match_loop(b0, t0),
                taker_order == with_quantity(t0, taker_order.quantity),
                !matching_continues(self@, taker_order),
            decreases taker_order.quantity + side_levels(self@, opposite(t0.side)).len(),
        {
            let best_opp_price = match taker_order.side {
                Side::Bid => self.best_ask(),
                Side::Ask => self.best_bid(),
            };
            proof {
                lemma_inv_facts(self@, meta_entries(self.order_metadata));
            }
            match best_opp_price {
                Some(price) => {
                    if (taker_order.side == Side::Bid && taker_order.price >= price) || (
                    taker_order.side == Side::Ask && taker_order.price <= price) {
                        proof {
                            let o = side_levels(self@, opposite(t0.side));
                            assert(o[best_index(o, t0.side)].orders.len() > 0);
                            lemma_level_position(o, price, best_index(o, t0.side));
                        }
                        self.match_against_level(&mut taker_order, price);
                    } else {
                        break;
                    }
                },
                None => break,
            }
        }
        proof {
            lemma_inv_facts(self@, meta_entries(self.order_metadata));
            assert(match_loop(self@, taker_order) == (self@, taker_order));
        }
        if taker_order.quantity > 0 {
            return self.add_order(taker_order);
        }
        OrderResult::FullFill(taker_order.id)
    }

    /// Execute the taker against the level priced `price` on the opposite
    /// side, front of the queue first, until the taker is exhausted or the
    /// level is: every trade is at `price`, no other level and nothing on the
    /// taker's side changes, and the quantity executed is the lesser of the
    /// taker's and the level's. When that side has no level at `price`,
    /// nothing happens; when it has one, it is the best level there and
    /// within the taker's limit.
    fn match_against_level(&mut self, taker: &mut Order, price: Price)
        requires
            old(self).wf(),
            has_level(side_levels(old(self)@, opposite(old(taker).side)), price) ==> {
                &&& matching_continues(old(self)@, *old(taker))
                &&& side_levels(old(self)@, opposite(old(taker).side))[best_index(
                    side_levels(old(self)@, opposite(old(taker).side)),
                    old(taker).side,
                )].price == price
            },
        ensures
            final(self).wf(),
            !has_level(side_levels(old(self)@, opposite(old(taker).side)), price) ==> {
                &&& final(self)@ == old(self)@
                &&& *final(taker) == *old(taker)
            },
            match_loop(final(self)@, *final(taker)) == match_loop(old(self)@, *old(taker)),
            *final(taker) == with_quantity(*old(taker), final(taker).quantity),
            final(taker).quantity <= old(taker).quantity,
            side_levels(final(self)@, opposite(old(taker).side)).len() <= side_levels(
                old(self)@,
                opposite(old(taker).side),
            ).len(),
            has_level(side_levels(old(self)@, opposite(old(taker).side)), price) ==> (
            final(taker).quantity == 0 || side_levels(final(self)@, opposite(old(taker).side)).len()
                < side_levels(old(self)@, opposite(old(taker).side)).len()),
            // every trade it makes is at `price`, by this taker
            final(self)@.trades.len() >= old(self)@.trades.len(),
            final(self)@.trades.subrange(0, old(self)@.trades.len() as int) == old(self)@.trades,
            forall|i: int|
                old(self)@.trades.len() <= i < final(self)@.trades.len() ==> {
                    &&& (#[trigger] final(self)@.trades[i]).price == price
                    &&& final(self)@.trades[i].taker_id == old(taker).id
                },
            trade_volume(final(self)@.trades) == trade_volume(old(self)@.trades) + old(taker).quantity
                - final(taker).quantity,
            // it executes min(taker's quantity, level's quantity), and takes it
            // from the level at `price` only
            old(taker).quantity - final(taker).quantity == if old(taker).quantity <= sum_quantity(
                level_at(side_levels(old(self)@, opposite(old(taker).side)), price),
            ) {
                old(taker).quantity as int
            } else {
                sum_quantity(level_at(side_levels(old(self)@, opposite(old(taker).side)), price))
            },
            sum_quantity(level_at(side_levels(final(self)@, opposite(old(taker).side)), price))
                == sum_quantity(level_at(side_levels(old(self)@, opposite(old(taker).side)), price))
                - (old(taker).quantity - final(taker).quantity),
            final(taker).quantity > 0 ==> !has_level(
                side_levels(final(self)@, opposite(old(taker).side)),
                price,
            ),
            side_levels(final(self)@, old(taker).side) == side_levels(old(self)@, old(taker).side),
            forall|p: Price|
                p != price ==> #[trigger] level_at(side_levels(final(self)@, opposite(old(taker).side)), p)
                    == level_at(side_levels(old(self)@, opposite(old(taker).side)), p),
    {
        let ghost b0 = self@;
        let ghost t0 = *taker;
        let opp_side = match taker.side {
            Side::Bid => Side::Ask,
            Side::Ask => Side::Bid,
        };
        let ghost n0 = side_levels(b0, opp_side).len();
        proof {
            lemma_inv_facts(b0, meta_entries(self.order_metadata));
        }
        // Find the opposite level first.
        let level_idx = match self.side_find_level(opp_side, price) {
            Ok(idx) => idx,
            Err(_) => {
                proof {
                    assert(b0.trades.subrange(0, b0.trades.len() as int) =~= b0.trades);
                }
                return ;
            },
        };
        proof {
            let li = best_index(side_levels(b0, opp_side), t0.side);
            lemma_level_position(side_levels(b0, opp_side), price, li);
        }
        loop
            invariant_except_break
                side_levels(self@, opp_side).len() == n0,
                level_idx < n0,
                level_idx == best_index(side_levels(self@, opp_side), t0.side),
                side_levels(self@, opp_side)[level_idx as int].price == price,
            invariant
                self.wf(),
                match_loop(self@, *taker) == match_loop(b0, t0),
                *taker == with_quantity(t0, taker.quantity),
                taker.quantity <= t0.quantity,
                opp_side == opposite(t0.side),
                t0.side == Side::Bid ==> price <= t0.price,
                t0.side == Side::Ask ==> price >= t0.price,
                self@.trades.len() >= b0.trades.len(),
                self@.trades.subrange(0, b0.trades.len() as int) == b0.trades,
                forall|i: int|
                    b0.trades.len() <= i < self@.trades.len() ==> {
                        &&& (#[trigger] self@.trades[i]).price == price
                        &&& self@.trades[i].taker_id == t0.id
                    },
                trade_volume(self@.trades) == trade_volume(b0.trades) + t0.quantity - taker.quantity,
                sum_quantity(level_at(side_levels(self@, opp_side), price)) == sum_quantity(
                    level_at(side_levels(b0, opp_side), price),
                ) - (t0.quantity - taker.quantity),
                side_levels(self@, t0.side) == side_levels(b0, t0.side),
                forall|p: Price|
                    p != price ==> #[trigger] level_at(side_levels(self@, opp_side), p) == level_at(
                        side_levels(b0, opp_side),
                        p,
                    ),
            ensures
                self.wf(),
                match_loop(self@, *taker) == match_loop(b0, t0),
                *taker == with_quantity(t0, taker.quantity),
                taker.quantity <= t0.quantity,
                side_levels(self@, opp_side).len() <= n0,
                taker.quantity == 0 || side_levels(self@, opp_side).len() < n0,
                taker.quantity > 0 ==> !has_level(side_levels(self@, opp_side), price),
                self@.trades.len() >= b0.trades.len(),
                self@.trades.subrange(0, b0.trades.len() as int) == b0.trades,
                forall|i: int|
                    b0.trades.len() <= i < self@.trades.len() ==> {
                        &&& (#[trigger] self@.trades[i]).price == price
                        &&& self@.trades[i].taker_id == t0.id
                    },
                trade_volume(self@.trades) == trade_volume(b0.trades) + t0.quantity - taker.quantity,
                sum_quantity(level_at(side_levels(self@, opp_side), price)) == sum_quantity(
                    level_at(side_levels(b0, opp_side), price),
                ) - (t0.quantity - taker.quantity),
                side_levels(self@, t0.side) == side_levels(b0, t0.side),
                forall|p: Price|
                    p != price ==> #[trigger] level_at(side_levels(self@, opp_side), p) == level_at(
                        side_levels(b0, opp_side),
                        p,
                    ),

            decreases best_level_len(self@, *taker),
        {
            if taker.quantity == 0 {
                break;
            }
            let ghost bi = self@;
            let ghost ti = *taker;
            let ghost m = meta_entries(self.order_metadata);
            proof {
                lemma_inv_facts(bi, m);
                assert(side_levels(bi, opp_side)[level_idx as int].orders.len() > 0);
                assert(matching_continues(bi, ti));
            }
            // Trade the front order of the level against the taker.
            let (match_qty, maker_id, fully_filled) = self.side_match_front(
                opp_side,
                level_idx,
                taker.quantity,
            );
            self.trades.push(Trade { price, quantity: match_qty, maker_id, taker_id: taker.id });
            taker.quantity = taker.quantity - match_qty;
            let ghost s = side_levels(bi, opp_side);
            let ghost q = s[level_idx as int].orders;
            let ghost b_traded = self@;
            proof {
                lemma_inv_update_front(bi, m, opp_side, level_idx as int, front_quantity_left(q, ti));
                lemma_inv_trades(
                    with_side_levels(bi, opp_side, side_levels(b_traded, opp_side)),
                    m,
                    b_traded.trades,
                );
                assert(b_traded =~= BookView {
                    trades: b_traded.trades,
                    ..with_side_levels(bi, opp_side, side_levels(b_traded, opp_side))
                });
            }
            if fully_filled {
                // The maker is filled: it leaves the book and the index, and
                // the orders behind it move up one place.
                meta_map_remove(&mut self.order_metadata, maker_id);
                proof {
                    lemma_after_removal(b_traded, m, opp_side, level_idx as int, 0);
                }
                let now_empty = self.side_remove_order(opp_side, level_idx, 0);
                let ghost m1 = meta_entries(self.order_metadata);
                if !now_empty {
                    self.reindex_level(opp_side, level_idx, 0);
                }
                proof {
                    let qt = side_levels(b_traded, opp_side)[level_idx as int].orders;
                    assert(reindexed(
                        m1,
                        meta_entries(self.order_metadata),
                        qt.remove(0),
                        0,
                        side_levels(b_traded, opp_side)[level_idx as int].price,
                        opp_side,
                    ));
                    lemma_fill_step(bi, ti, b_traded, m, meta_entries(self.order_metadata), level_idx as int);
                    assert(self@ == match_step(bi, ti).0);
                    assert(*taker == match_step(bi, ti).1);
                    lemma_step_local(bi, ti);
                    lemma_trades_extend(b0.trades, bi.trades, self@.trades, price, t0.id);
                }
                if now_empty {
                    break;
                }
            } else {
                // The maker is partly filled, so the taker is exhausted.
                proof {
                    lemma_partial_step(bi, ti, b_traded, level_idx as int);
                    assert(*taker == match_step(bi, ti).1);
                    lemma_step_local(bi, ti);
                    lemma_trades_extend(b0.trades, bi.trades, self@.trades, price, t0.id);
                }
                break;
            }
        }
        proof {
            let lq = level_at(side_levels(self@, opp_side), price);
            crate::price_level::lemma_sum_nonnegative(lq);
            if taker.quantity > 0 {
                assert(lq.len() == 0);
            }
        }
    }

    /// The highest bid price, or None if there are no bids.
    pub fn best_bid(&self) -> (best: Option<Price>)
        ensures
            best == best_bid_of(self@),
    {
        if self.bids.is_empty() {
            return Option::None;
        }
        Some(self.bids[self.bids.len() - 1].price())
    }

    /// The lowest ask price, or None if there are no asks.
    pub fn best_ask(&self) -> (best: Option<Price>)
        ensures
            best == best_ask_of(self@),
    {
        if self.asks.is_empty() {
            return Option::None;
        }
        Some(self.asks[0].price())
    }

    /// Mid-price, or None if either side is empty.
    pub fn mid_price(&self) -> (mid: Option<Price>)
        ensures
            mid == mid_price_of(self@),
            mid is Some <==> self@.bids.len() > 0 && self@.asks.len() > 0,
            mid matches Some(m) ==> 2 * m <= self@.bids.last().price + self@.asks[0].price < 2 * m
                + 2,
    {
        match (self.best_bid(), self.best_ask()) {
            (Some(bid), Some(ask)) => {
                let sum = bid as u128 + ask as u128;
                Some((sum / 2) as Price)
            },
            _ => None,
        }
    }

    /// Spread in fixed-point units, or None if either side is empty.
    pub fn spread(&self) -> (spread: Option<Price>)
        requires
            uncrossed(self@),
        ensures
            spread == spread_of(self@),
            spread is Some <==> self@.bids.len() > 0 && self@.asks.len() > 0,
            spread matches Some(d) ==> self@.bids.last().price + d == self@.asks[0].price,
    {
        Some(self.best_ask()? - self.best_bid()?)
    }

    /// Number of bid price levels.
    pub fn bid_depth(&self) -> (depth: usize)
        ensures
            depth == self@.bids.len(),
    {
        self.bids.len()
    }

    /// Number of ask price levels.
    pub fn ask_depth(&self) -> (depth: usize)
        ensures
            depth == self@.asks.len(),
    {
        self.asks.len()
    }

    /// The trades executed so far, oldest first.
    pub fn trades(&self) -> (trades: &[Trade])
        ensures
            trades@ == self@.trades,
    {
        self.trades.as_slice()
    }

    /// Hand out the trades executed so far, oldest first, and forget them.
    pub fn drain_trades(&mut self) -> (trades: Vec<Trade>)
        requires
            old(self).wf(),
        ensures
            final(self).wf(),
            trades@ == old(self)@.trades,
            final(self)@ == (BookView { trades: Seq::empty(), ..old(self)@ }),
    {
        let ghost b0 = self@;
        let mut drained = Vec::new();
        std::mem::swap(&mut drained, &mut self.trades);
        proof {
            lemma_inv_trades(b0, meta_entries(self.order_metadata), Seq::empty());
            assert(self@ =~= BookView { trades: Seq::empty(), ..b0 });
        }
        drained
    }

    /// Whether the book can take `order` as a resting order (see `can_rest`).
    pub fn can_rest(&self, order: &Order) -> (ok: bool)
        requires
            self.wf(),
        ensures
            ok == can_rest(self@, *order),
    {
        if !self.indexable(order) {
            return false;
        }
        let (_, volume) = self.level_stats(order.side, order.price);
        volume <= u64::MAX - order.quantity
    }

    /// Whether the index can take `order` (see `can_index`).
    fn indexable(&self, order: &Order) -> (ok: bool)
        requires
            self.wf(),
        ensures
            ok == can_index(self@, *order),
    {
        let ghost b = self@;
        proof {
            lemma_meta_dom(b, meta_entries(self.order_metadata), order.id);
        }
        let resting = match meta_map_get(&self.order_metadata, order.id) {
            Some(_) => true,
            None => false,
        };
        if resting {
            return false;
        }
        let (count, _) = self.level_stats(order.side, order.price);
        count < 0x8000_0000
    }

    /// The number of orders and the total quantity of the queue priced
    /// `price` on `side`.
    fn level_stats(&self, side: Side, price: Price) -> (stats: (usize, Quantity))
        requires
            self.wf(),
        ensures
            stats.0 == level_at(side_levels(self@, side), price).len(),
            stats.1 == sum_quantity(level_at(side_levels(self@, side), price)),
    {
        let ghost b = self@;
        proof {
            lemma_inv_facts(b, meta_entries(self.order_metadata));
        }
        match self.side_find_level(side, price) {
            Ok(i) => {
                let ghost s = side_levels(b, side);
                proof {
                    lemma_level_at_index(s, i as int);
                }
                match side {
                    Side::Bid => {
                        assert(self.bids@[i as int].wf());
                        (self.bids[i].order_count(), self.bids[i].total_quantity())
                    },
                    Side::Ask => {
                        assert(self.asks@[i as int].wf());
                        (self.asks[i].order_count(), self.asks[i].total_quantity())
                    },
                }
            },
            Err(_) => {
                assert(level_at(side_levels(b, side), price) =~= Seq::<Order>::empty());
                (0, 0)
            },
        }
    }

    /// `find_level` on `side`.
    fn side_find_level(&self, side: Side, price: Price) -> (r: Result<usize, usize>)
        requires
            ascending(side_levels(self@, side)),
        ensures
            match r {
                Ok(i) => i == insert_pos(side_levels(self@, side), price) && has_level(
                    side_levels(self@, side),
                    price,
                ),
                Err(i) => i == insert_pos(side_levels(self@, side), price) && !has_level(
                    side_levels(self@, side),
                    price,
                ),
            },
    {
        match side {
            Side::Bid => find_level(&self.bids, price),
            Side::Ask => find_level(&self.asks, price),
        }
    }

    /// `PriceLevel::match_front` on level `li` of `side`.
    fn side_match_front(&mut self, side: Side, li: usize, qty: Quantity) -> (res: (Quantity, OrderId, bool))
        requires
            levels_wf(old(self).bids@),
            levels_wf(old(self).asks@),
            li < side_levels(old(self)@, side).len(),
            side_levels(old(self)@, side)[li as int].orders.len() > 0,
        ensures
            levels_wf(final(self).bids@),
            levels_wf(final(self).asks@),
            final(self).order_metadata == old(self).order_metadata,
            final(self).trades@ == old(self).trades@,
            ({
                let s = side_levels(old(self)@, side);
                let q = s[li as int].orders;
                let front = q[0];
                let traded = if front.quantity <= qty { front.quantity } else { qty };
                &&& res.0 == traded
                &&& res.1 == front.id
                &&& res.2 == (front.quantity <= qty)
                &&& final(self)@ == with_side_levels(
                    old(self)@,
                    side,
                    s.update(
                        li as int,
                        Level {
                            price: s[li as int].price,
                            orders: q.update(0, with_quantity(front, (front.quantity - traded) as u64)),
                        },
                    ),
                )
            }),
    {
        let ghost b0 = self@;
        match side {
            Side::Bid => {
                assert(self.bids@[li as int].wf());
                assert(self.bids@[li as int]@ == b0.bids[li as int]);
                let r = self.bids[li].match_front(qty);
                assert(levels_view(self.bids@) =~= b0.bids.update(li as int, self.bids@[li as int]@));
                assert(self@ =~= with_side_levels(b0, side, levels_view(self.bids@)));
                r
            },
            Side::Ask => {
                assert(self.asks@[li as int].wf());
                assert(self.asks@[li as int]@ == b0.asks[li as int]);
                let r = self.asks[li].match_front(qty);
                assert(levels_view(self.asks@) =~= b0.asks.update(li as int, self.asks@[li as int]@));
                assert(self@ =~= with_side_levels(b0, side, levels_view(self.asks@)));
                r
            },
        }
    }

    /// `remove_order_at` on `side`.
    fn side_remove_order(&mut self, side: Side, li: usize, k: usize) -> (now_empty: bool)
        requires
            levels_wf(old(self).bids@),
            levels_wf(old(self).asks@),
            li < side_levels(old(self)@, side).len(),
            k < side_levels(old(self)@, side)[li as int].orders.len(),
        ensures
            levels_wf(final(self).bids@),
            levels_wf(final(self).asks@),
            final(self).order_metadata == old(self).order_metadata,
            final(self)@ == with_side_levels(
                old(self)@,
                side,
                levels_remove_at(side_levels(old(self)@, side), li as int, k as int),
            ),
            now_empty == (side_levels(old(self)@, side)[li as int].orders.len() == 1),
    {
        let ghost b0 = self@;
        match side {
            Side::Bid => {
                assert(self.bids@[li as int]@ == b0.bids[li as int]);
                let r = remove_order_at(&mut self.bids, li, k);
                assert(self@ =~= with_side_levels(b0, side, levels_view(self.bids@)));
                r
            },
            Side::Ask => {
                assert(self.asks@[li as int]@ == b0.asks[li as int]);
                let r = remove_order_at(&mut self.asks, li, k);
                assert(self@ =~= with_side_levels(b0, side, levels_view(self.asks@)));
                r
            },
        }
    }

    /// The order at position `j` of level `li` of `side`.
    fn side_order_at(&self, side: Side, li: usize, j: usize) -> (order: Order)
        requires
            li < side_levels(self@, side).len(),
            j < side_levels(self@, side)[li as int].orders.len(),
        ensures
            order == side_levels(self@, side)[li as int].orders[j as int],
    {
        match side {
            Side::Bid => {
                assert(self.bids@[li as int]@ == self@.bids[li as int]);
                self.bids[li].order_at(j)
            },
            Side::Ask => {
                assert(self.asks@[li as int]@ == self@.asks[li as int]);
                self.asks[li].order_at(j)
            },
        }
    }

    /// The number of orders in level `li` of `side`.
    fn side_order_count(&self, side: Side, li: usize) -> (count: usize)
        requires
            li < side_levels(self@, side).len(),
        ensures
            count == side_levels(self@, side)[li as int].orders.len(),
    {
        match side {
            Side::Bid => {
                assert(self.bids@[li as int]@ == self@.bids[li as int]);
                self.bids[li].order_count()
            },
            Side::Ask => {
                assert(self.asks@[li as int]@ == self@.asks[li as int]);
                self.asks[li].order_count()
            },
        }
    }

    /// Point the index entries of the orders at positions `from` and later of
    /// level `li` of `side` at those positions, after the orders ahead of them
    /// have moved up.
    fn reindex_level(&mut self, side: Side, li: usize, from: usize)
        requires
            li < side_levels(old(self)@, side).len(),
            ({
                let q = side_levels(old(self)@, side)[li as int].orders;
                let m = meta_entries(old(self).order_metadata);
                &&& from <= q.len()
                &&& q.len() < 0x8000_0000
                &&& queue_unique(q)
                &&& forall|j: int|
                    0 <= j < q.len() ==> {
                        &&& m.dom().contains((#[trigger] q[j]).id)
                        &&& m[q[j].id].price_spec() == side_levels(old(self)@, side)[li as int].price
                        &&& m[q[j].id].side_spec() == side
                    }
            }),
        ensures
            final(self).bids == old(self).bids,
            final(self).asks == old(self).asks,
            final(self).trades == old(self).trades,
            reindexed(
                meta_entries(old(self).order_metadata),
                meta_entries(final(self).order_metadata),
                side_levels(old(self)@, side)[li as int].orders,
                from as int,
                side_levels(old(self)@, side)[li as int].price,
                side,
            ),
    {
        let ghost q = side_levels(self@, side)[li as int].orders;
        let ghost p = side_levels(self@, side)[li as int].price;
        let ghost m0 = meta_entries(self.order_metadata);
        let ghost bids0 = self.bids;
        let ghost asks0 = self.asks;
        let ghost trades0 = self.trades;
        let len = self.side_order_count(side, li);
        let mut j = from;
        while j < len
            invariant
                self.bids == bids0,
                self.asks == asks0,
                self.trades == trades0,
                li < side_levels(self@, side).len(),
                q == side_levels(self@, side)[li as int].orders,
                len == q.len(),
                len < 0x8000_0000,
                from <= j <= len,
                queue_unique(q),
                forall|j2: int|
                    0 <= j2 < q.len() ==> {
                        &&& m0.dom().contains((#[trigger] q[j2]).id)
                        &&& m0[q[j2].id].price_spec() == p
                        &&& m0[q[j2].id].side_spec() == side
                    },
                meta_entries(self.order_metadata).dom() == m0.dom(),
                forall|id: OrderId|
                    !queued_between(q, from as int, j as int, id) ==> #[trigger] meta_entries(
                        self.order_metadata,
                    )[id] == m0[id],
                forall|j2: int|
                    from <= j2 < j ==> {
                        let m = meta_entries(self.order_metadata);
                        &&& m.dom().contains((#[trigger] q[j2]).id)
                        &&& m[q[j2].id].price_spec() == p
                        &&& m[q[j2].id].idx_spec() == j2
                        &&& m[q[j2].id].side_spec() == side
                    },
            decreases len - j,
        {
            let id = self.side_order_at(side, li, j).id;
            let ghost mc = meta_entries(self.order_metadata);
            proof {
                assert(q[j as int].id == id);
                assert(!queued_between(q, from as int, j as int, id)) by {
                    if queued_between(q, from as int, j as int, id) {
                        let j2 = choose|j2: int| from <= j2 < j && 0 <= j2 < q.len() && #[trigger] q[j2].id == id;
                        assert(q[j2].id == q[j as int].id);
                    }
                }
                assert(mc[id] == m0[id]);
            }
            if let Some(mut meta) = meta_map_get(&self.order_metadata, id) {
                meta.set_idx(j);
                meta_map_insert(&mut self.order_metadata, id, meta);
                proof {
                    let mn = meta_entries(self.order_metadata);
                    assert(mn.dom() =~= m0.dom());
                    assert forall|id2: OrderId| !queued_between(q, from as int, j + 1, id2) implies #[trigger] mn[id2]
                        == m0[id2] by {
                        assert(q[j as int].id == id);
                        if queued_between(q, from as int, j as int, id2) {
                            let j2 = choose|j2: int| from <= j2 < j && 0 <= j2 < q.len() && #[trigger] q[j2].id
                                == id2;
                            assert(from <= j2 < j + 1 && 0 <= j2 < q.len() && q[j2].id == id2);
                        }
                    }
                    assert forall|j2: int| from <= j2 < j + 1 implies {
                        &&& mn.dom().contains((#[trigger] q[j2]).id)
                        &&& mn[q[j2].id].price_spec() == p
                        &&& mn[q[j2].id].idx_spec() == j2
                        &&& mn[q[j2].id].side_spec() == side
                    } by {
                        if j2 < j {
                            assert(q[j2].id != id);
                        }
                    }
                }
            }
            j = j + 1;
        }
    }
}

impl Default for OrderBook {
    fn default() -> (book: Self)
        ensures
            book.wf(),
            book@.bids.len() == 0,
            book@.asks.len() == 0,
            book@.trades.len() == 0,
    {
        Self::new()
    }
}

} // verus!
