use vstd::prelude::*;
use crate::lemmas::{
    book_valid_at, lemma_add_side, lemma_book_valid_equiv, lemma_remove_front_updated,
    lemma_remove_index, lemma_remove_side, lemma_update_front, rests_at, unique_at, valid_at,
};
use crate::model::{
    BookView, ascending, best_index, book_add, book_cancel, holds_at, lemma_level_at_index,
    lemma_levels_add, lemma_levels_remove_at, lemma_update_level, level_at, levels_add,
    levels_cancel, levels_remove_at, match_step, matching_continues, opposite, rests, side_levels,
    with_side_levels,
};
use crate::order_index::OrderMeta;
use crate::price_level::{Level, PriceLevel};
use crate::types::{Order, OrderId, Price, Side, Trade, with_quantity};

verus! {

/// Every level's running total agrees with its orders.
pub open spec fn levels_wf(v: Seq<PriceLevel>) -> bool {
    forall|i: int| 0 <= i < v.len() ==> #[trigger] v[i].wf()
}

/// Every order resting on `side` has an entry in the index telling its price,
/// its position in its queue, and its side.
pub open spec fn meta_covers(m: Map<OrderId, OrderMeta>, levels: Seq<Level>, side: Side) -> bool {
    forall|p: Price, k: int|
        0 <= k < level_at(levels, p).len() ==> {
            let id = (#[trigger] level_at(levels, p)[k]).id;
            &&& m.dom().contains(id)
            &&& m[id].price_spec() == p
            &&& m[id].idx_spec() == k
            &&& m[id].side_spec() == side
        }
}

/// The index has entries for resting orders only.
pub open spec fn meta_in_book(m: Map<OrderId, OrderMeta>, b: BookView) -> bool {
    forall|id: OrderId| #[trigger] m.dom().contains(id) ==> rests_at(b.bids, id) || rests_at(b.asks, id)
}

/// The book is well formed and the index agrees with it.
#[verifier::opaque]
pub closed spec fn book_inv(b: BookView, m: Map<OrderId, OrderMeta>) -> bool {
    &&& book_valid_at(b)
    &&& meta_covers(m, b.bids, Side::Bid)
    &&& meta_covers(m, b.asks, Side::Ask)
    &&& meta_in_book(m, b)
}

/// What the invariant gives about the shape of the book.
pub(crate) proof fn lemma_inv_facts(b: BookView, m: Map<OrderId, OrderMeta>)
    requires
        book_inv(b, m),
    ensures
        ascending(b.bids),
        ascending(b.asks),
        crate::model::book_valid(b),
{
    reveal(book_inv);
    lemma_book_valid_equiv(b);
}

/// Queueing `o` on its side, with an entry for `o` added to the index, keeps
/// the index in agreement with that side.
pub(crate) proof fn lemma_meta_add_side(m: Map<OrderId, OrderMeta>, s: Seq<Level>, o: Order, meta: OrderMeta)
    requires
        valid_at(s, o.side),
        unique_at(s),
        meta_covers(m, s, o.side),
        !rests_at(s, o.id),
        meta.price_spec() == o.price,
        meta.idx_spec() == level_at(s, o.price).len(),
        meta.side_spec() == o.side,
    ensures
        meta_covers(m.insert(o.id, meta), levels_add(s, o), o.side),
{
    let n = levels_add(s, o);
    let m2 = m.insert(o.id, meta);
    lemma_levels_add(s, o);
    assert forall|p: Price, k: int| 0 <= k < level_at(n, p).len() implies {
        let id = (#[trigger] level_at(n, p)[k]).id;
        &&& m2.dom().contains(id)
        &&& m2[id].price_spec() == p
        &&& m2[id].idx_spec() == k
        &&& m2[id].side_spec() == o.side
    } by {
        if p == o.price && k == level_at(s, p).len() {
            assert(level_at(n, p)[k] == o);
        } else {
            assert(level_at(n, p)[k] == level_at(s, p)[k]);
            assert(rests_at(s, level_at(s, p)[k].id));
        }
    }
}

/// An index entry for an id that does not rest on a side leaves the index in
/// agreement with that side.
pub(crate) proof fn lemma_meta_insert_other(m: Map<OrderId, OrderMeta>, s: Seq<Level>, side: Side, id: OrderId, meta: OrderMeta)
    requires
        meta_covers(m, s, side),
        !rests_at(s, id),
    ensures
        meta_covers(m.insert(id, meta), s, side),
{
    assert forall|p: Price, k: int| 0 <= k < level_at(s, p).len() implies #[trigger] level_at(s, p)[k].id
        != id by {
        assert(rests_at(s, level_at(s, p)[k].id));
    }
}

/// Queueing `o` keeps the book well formed and the index, with an entry for
/// `o` added, in agreement with it.
pub(crate) proof fn lemma_add_book(b: BookView, m: Map<OrderId, OrderMeta>, o: Order, meta: OrderMeta)
    requires
        book_inv(b, m),
        !rests(b, o.id),
        meta.price_spec() == o.price,
        meta.idx_spec() == level_at(side_levels(b, o.side), o.price).len(),
        meta.side_spec() == o.side,
    ensures
        book_inv(book_add(b, o), m.insert(o.id, meta)),
{
    reveal(book_inv);
    lemma_book_valid_equiv(b);
    let b2 = book_add(b, o);
    let m2 = m.insert(o.id, meta);
    if o.side == Side::Bid {
        lemma_add_side(b.bids, o);
        lemma_meta_add_side(m, b.bids, o, meta);
        lemma_meta_insert_other(m, b.asks, Side::Ask, o.id, meta);
        assert(b2.asks == b.asks);
    } else {
        lemma_add_side(b.asks, o);
        lemma_meta_add_side(m, b.asks, o, meta);
        lemma_meta_insert_other(m, b.bids, Side::Bid, o.id, meta);
        assert(b2.bids == b.bids);
    }
    assert forall|id: OrderId| !(#[trigger] rests_at(b2.bids, id) && rests_at(b2.asks, id)) by {
        assert(!(rests_at(b.bids, id) && rests_at(b.asks, id)));
    }
    assert forall|id: OrderId| #[trigger] m2.dom().contains(id) implies rests_at(b2.bids, id)
        || rests_at(b2.asks, id) by {
        if id != o.id {
            assert(m.dom().contains(id));
        }
    }
}

/// Every resting order has an index entry.
pub(crate) proof fn lemma_covers_rests(b: BookView, m: Map<OrderId, OrderMeta>, id: OrderId)
    requires
        book_inv(b, m),
        rests(b, id),
    ensures
        m.dom().contains(id),
{
    reveal(book_inv);
    lemma_book_valid_equiv(b);
    if rests_at(b.bids, id) {
        let (p, k) = choose|p: Price, k: int| 0 <= k < level_at(b.bids, p).len() && #[trigger] level_at(
            b.bids,
            p,
        )[k].id == id;
    } else {
        let (p, k) = choose|p: Price, k: int| 0 <= k < level_at(b.asks, p).len() && #[trigger] level_at(
            b.asks,
            p,
        )[k].id == id;
    }
}

/// An id with an index entry rests exactly where the entry says.
pub(crate) proof fn lemma_locate(b: BookView, m: Map<OrderId, OrderMeta>, id: OrderId)
    requires
        book_inv(b, m),
        m.dom().contains(id),
    ensures
        ({
            let s = side_levels(b, m[id].side_spec());
            let q = level_at(s, m[id].price_spec());
            let k = m[id].idx_spec();
            &&& 0 <= k < q.len()
            &&& q[k].id == id
        }),
{
    reveal(book_inv);
    if rests_at(b.bids, id) {
        let (p, k) = choose|p: Price, k: int| 0 <= k < level_at(b.bids, p).len() && #[trigger] level_at(
            b.bids,
            p,
        )[k].id == id;
    } else {
        let (p, k) = choose|p: Price, k: int| 0 <= k < level_at(b.asks, p).len() && #[trigger] level_at(
            b.asks,
            p,
        )[k].id == id;
    }
}

/// Some order at a position in `a..b` of queue `q` has id `id`.
pub open spec fn queued_between(q: Seq<Order>, a: int, b: int, id: OrderId) -> bool {
    exists|j: int| a <= j < b && 0 <= j < q.len() && #[trigger] q[j].id == id
}

/// `m2` is the index `m1` with the entries of the orders at positions `from`
/// and later of queue `q` (priced `p`, on `side`) telling those positions.
pub open spec fn reindexed(
    m1: Map<OrderId, OrderMeta>,
    m2: Map<OrderId, OrderMeta>,
    q: Seq<Order>,
    from: int,
    p: Price,
    side: Side,
) -> bool {
    &&& m2.dom() == m1.dom()
    &&& forall|id: OrderId| !queued_between(q, from, q.len() as int, id) ==> #[trigger] m2[id] == m1[id]
    &&& forall|j: int|
        from <= j < q.len() ==> {
            &&& m2.dom().contains((#[trigger] q[j]).id)
            &&& m2[q[j].id].price_spec() == p
            &&& m2[q[j].id].idx_spec() == j
            &&& m2[q[j].id].side_spec() == side
        }
}

/// What the index holds of the orders that stay in level `li` once the order
/// at position `k` leaves it and its entry is removed: an entry for each,
/// telling its price and side; the queue left has no repeated id and fits
/// the index's positions.
pub(crate) proof fn lemma_after_removal(b: BookView, m: Map<OrderId, OrderMeta>, side: Side, li: int, k: int)
    requires
        book_inv(b, m),
        0 <= li < side_levels(b, side).len(),
        0 <= k < side_levels(b, side)[li].orders.len(),
    ensures
        ({
            let q = side_levels(b, side)[li].orders;
            let q2 = q.remove(k);
            let m1 = m.remove(q[k].id);
            &&& crate::lemmas::queue_unique(q2)
            &&& q2.len() < 0x8000_0000
            &&& forall|j: int|
                0 <= j < q2.len() ==> {
                    &&& m1.dom().contains((#[trigger] q2[j]).id)
                    &&& m1[q2[j].id].price_spec() == side_levels(b, side)[li].price
                    &&& m1[q2[j].id].side_spec() == side
                }
        }),
{
    reveal(book_inv);
    let s = side_levels(b, side);
    let q = s[li].orders;
    let q2 = q.remove(k);
    let p0 = s[li].price;
    lemma_book_valid_equiv(b);
    lemma_level_at_index(s, li);
    assert(level_at(s, p0)[q.len() - 1] == q[q.len() - 1]);
    m[q[q.len() - 1].id].lemma_idx_bound();
    assert forall|j: int| 0 <= j < q2.len() implies {
        &&& m.remove(q[k].id).dom().contains((#[trigger] q2[j]).id)
        &&& m.remove(q[k].id)[q2[j].id].price_spec() == p0
        &&& m.remove(q[k].id)[q2[j].id].side_spec() == side
    } by {
        crate::lemmas::lemma_remove_index(q, k, j);
        let src = if j < k { j } else { j + 1 };
        assert(q2[j] == level_at(s, p0)[src]);
        assert(level_at(s, p0)[k].id == q[k].id);
    }
    assert forall|j1: int, j2: int|
        0 <= j1 < q2.len() && 0 <= j2 < q2.len() && #[trigger] q2[j1].id == #[trigger] q2[j2].id implies j1
        == j2 by {
        crate::lemmas::lemma_remove_index(q, k, j1);
        crate::lemmas::lemma_remove_index(q, k, j2);
        let s1 = if j1 < k { j1 } else { j1 + 1 };
        let s2 = if j2 < k { j2 } else { j2 + 1 };
        assert(level_at(s, p0)[s1].id == level_at(s, p0)[s2].id);
    }
}

/// Removing the order at position `k` of level `li` of side `side`, with its
/// index entry removed and the entries of the orders behind it telling their
/// new positions, keeps the book well formed and the index in agreement with
/// it.
#[verifier::rlimit(60)]
pub(crate) proof fn lemma_cancel_book(
    b: BookView,
    m: Map<OrderId, OrderMeta>,
    side: Side,
    li: int,
    k: int,
    m2: Map<OrderId, OrderMeta>,
)
    requires
        book_inv(b, m),
        0 <= li < side_levels(b, side).len(),
        0 <= k < side_levels(b, side)[li].orders.len(),
        ({
            let q = side_levels(b, side)[li].orders;
            reindexed(m.remove(q[k].id), m2, q.remove(k), k, side_levels(b, side)[li].price, side)
        }),
    ensures
        ({
            let s = side_levels(b, side);
            let b2 = crate::model::with_side_levels(b, side, levels_remove_at(s, li, k));
            &&& book_inv(b2, m2)
            &&& b2 == book_cancel(b, s[li].orders[k].id)
            &&& rests(b, s[li].orders[k].id)
        }),
{
    let s = side_levels(b, side);
    let other = side_levels(b, crate::model::opposite(side));
    let q = s[li].orders;
    let q2 = q.remove(k);
    let r = q[k].id;
    let ns = levels_remove_at(s, li, k);
    let b2 = crate::model::with_side_levels(b, side, ns);
    reveal(book_inv);
    lemma_cancel_shape(b, side, li, k);
    lemma_cancel_matches(b, side, li, k);
    lemma_level_at_index(s, li);
    assert forall|id: OrderId| #[trigger] rests_at(other, id) implies m2.dom().contains(id) && m2[id]
        == m[id] by {
        assert(m.dom().contains(id)) by {
            let (p, j) = choose|p: Price, j: int| 0 <= j < level_at(other, p).len() && #[trigger] level_at(
                other,
                p,
            )[j].id == id;
        }
        if queued_between(q2, k, q2.len() as int, id) {
            let j = choose|j: int| k <= j < q2.len() && 0 <= j < q2.len() && #[trigger] q2[j].id == id;
            crate::lemmas::lemma_remove_index(q, k, j);
            assert(level_at(s, s[li].price)[j + 1].id == id);
            assert(rests_at(s, id));
        }
        assert(id != r) by {
            assert(level_at(s, s[li].price)[k].id == r);
            assert(rests_at(s, r));
        }
    }
    lemma_meta_frame(m, m2, other, crate::model::opposite(side));
    lemma_cancel_meta_side(m, m2, s, side, li, k);
    if side == Side::Bid {
        assert(b2.asks == b.asks && b2.bids == ns);
    } else {
        assert(b2.bids == b.bids && b2.asks == ns);
    }
    assert forall|id: OrderId| #[trigger] m2.dom().contains(id) implies rests_at(b2.bids, id)
        || rests_at(b2.asks, id) by {
        assert(m.dom().contains(id) && id != r);
    }
}

/// Removing the order at position `k` of level `li` of a side keeps the book
/// well formed and takes exactly that order's id out of the book.
pub(crate) proof fn lemma_cancel_shape(b: BookView, side: Side, li: int, k: int)
    requires
        book_valid_at(b),
        0 <= li < side_levels(b, side).len(),
        0 <= k < side_levels(b, side)[li].orders.len(),
    ensures
        ({
            let s = side_levels(b, side);
            let r = s[li].orders[k].id;
            let b2 = crate::model::with_side_levels(b, side, levels_remove_at(s, li, k));
            &&& book_valid_at(b2)
            &&& rests_at(s, r)
            &&& !rests_at(side_levels(b, crate::model::opposite(side)), r)
            &&& forall|id: OrderId| #[trigger] rests_at(levels_remove_at(s, li, k), id) <==> rests_at(s, id) && id != r
        }),
{
    let s = side_levels(b, side);
    let r = s[li].orders[k].id;
    let ns = levels_remove_at(s, li, k);
    let b2 = crate::model::with_side_levels(b, side, ns);
    lemma_remove_side(s, li, k, side);
    lemma_level_at_index(s, li);
    assert(level_at(s, s[li].price)[k].id == r);
    assert(rests_at(s, r));
    if side == Side::Bid {
        assert(b2.asks == b.asks && b2.bids == ns);
    } else {
        assert(b2.bids == b.bids && b2.asks == ns);
    }
    assert forall|id: OrderId| !(#[trigger] rests_at(b2.bids, id) && rests_at(b2.asks, id)) by {
        assert(!(rests_at(b.bids, id) && rests_at(b.asks, id)));
    }
}

/// The removal of the order at position `k` of level `li` is what
/// cancelling its id does.
pub(crate) proof fn lemma_cancel_matches(b: BookView, side: Side, li: int, k: int)
    requires
        book_valid_at(b),
        0 <= li < side_levels(b, side).len(),
        0 <= k < side_levels(b, side)[li].orders.len(),
    ensures
        ({
            let s = side_levels(b, side);
            let r = s[li].orders[k].id;
            &&& crate::model::with_side_levels(b, side, levels_remove_at(s, li, k)) == book_cancel(b, r)
            &&& rests(b, r)
        }),
{
    let s = side_levels(b, side);
    let other = side_levels(b, crate::model::opposite(side));
    let r = s[li].orders[k].id;
    lemma_cancel_shape(b, side, li, k);
    lemma_book_valid_equiv(b);
    crate::lemmas::lemma_unique_equiv(s);
    crate::lemmas::lemma_rests_equiv(other, r);
    assert(holds_at(s, r, li, k));
    let (l2, k2) = choose|l2: int, k2: int| holds_at(s, r, l2, k2);
    assert(s[l2].orders[k2].id == s[li].orders[k].id);
    assert(levels_cancel(s, r) == levels_remove_at(s, li, k));
    assert(levels_cancel(other, r) == other);
    if side == Side::Bid {
        assert(crate::model::with_side_levels(b, side, levels_remove_at(s, li, k)) =~= book_cancel(b, r));
    } else {
        assert(crate::model::with_side_levels(b, side, levels_remove_at(s, li, k)) =~= book_cancel(b, r));
    }
}

/// An index that agrees with `m` on every id resting on a side agrees with
/// that side as `m` does.
pub(crate) proof fn lemma_meta_frame(m: Map<OrderId, OrderMeta>, m2: Map<OrderId, OrderMeta>, s: Seq<Level>, side: Side)
    requires
        meta_covers(m, s, side),
        forall|id: OrderId| #[trigger] rests_at(s, id) ==> m2.dom().contains(id) && m2[id] == m[id],
    ensures
        meta_covers(m2, s, side),
{
    assert forall|p: Price, k: int| 0 <= k < level_at(s, p).len() implies {
        let id = (#[trigger] level_at(s, p)[k]).id;
        &&& m2.dom().contains(id)
        &&& m2[id].price_spec() == p
        &&& m2[id].idx_spec() == k
        &&& m2[id].side_spec() == side
    } by {
        assert(rests_at(s, level_at(s, p)[k].id));
    }
}

/// The side after the removal agrees with the index whose entry for the
/// removed order is gone and whose entries for the orders behind it tell
/// their new positions.
pub(crate) proof fn lemma_cancel_meta_side(
    m: Map<OrderId, OrderMeta>,
    m2: Map<OrderId, OrderMeta>,
    s: Seq<Level>,
    side: Side,
    li: int,
    k: int,
)
    requires
        valid_at(s, side),
        unique_at(s),
        meta_covers(m, s, side),
        0 <= li < s.len(),
        0 <= k < s[li].orders.len(),
        reindexed(m.remove(s[li].orders[k].id), m2, s[li].orders.remove(k), k, s[li].price, side),
    ensures
        meta_covers(m2, levels_remove_at(s, li, k), side),
{
    let q = s[li].orders;
    let q2 = q.remove(k);
    let r = q[k].id;
    let p0 = s[li].price;
    let ns = levels_remove_at(s, li, k);
    let m1 = m.remove(r);
    lemma_levels_remove_at(s, li, k);
    lemma_level_at_index(s, li);
    assert forall|p: Price, j: int| 0 <= j < level_at(ns, p).len() implies {
        let id = (#[trigger] level_at(ns, p)[j]).id;
        &&& m2.dom().contains(id)
        &&& m2[id].price_spec() == p
        &&& m2[id].idx_spec() == j
        &&& m2[id].side_spec() == side
    } by {
        let id = level_at(ns, p)[j].id;
        if p != p0 {
            assert(level_at(ns, p)[j] == level_at(s, p)[j]);
            assert(id != r) by {
                assert(level_at(s, p0)[k].id == r);
            }
            if queued_between(q2, k, q2.len() as int, id) {
                let j2 = choose|j2: int| k <= j2 < q2.len() && 0 <= j2 < q2.len() && #[trigger] q2[j2].id
                    == id;
                lemma_remove_index(q, k, j2);
                assert(level_at(s, p0)[j2 + 1].id == id);
            }
        } else {
            lemma_remove_index(q, k, j);
            if j < k {
                assert(level_at(s, p0)[j].id == id);
                assert(id != r) by {
                    assert(level_at(s, p0)[k].id == r);
                }
                if queued_between(q2, k, q2.len() as int, id) {
                    let j2 = choose|j2: int| k <= j2 < q2.len() && 0 <= j2 < q2.len() && #[trigger] q2[j2].id
                        == id;
                    lemma_remove_index(q, k, j2);
                    assert(level_at(s, p0)[j2 + 1].id == id);
                }
            }
        }
    }
}

/// The trades do not enter the invariant.
pub(crate) proof fn lemma_inv_trades(b: BookView, m: Map<OrderId, OrderMeta>, trades: Seq<Trade>)
    requires
        book_inv(b, m),
    ensures
        book_inv(BookView { trades, ..b }, m),
{
    reveal(book_inv);
    let b2 = BookView { trades, ..b };
    assert forall|id: OrderId| #[trigger] m.dom().contains(id) implies rests_at(b2.bids, id)
        || rests_at(b2.asks, id) by {}
}

/// Changing the quantity of the front order of a level keeps the invariant
/// with the same index.
pub(crate) proof fn lemma_inv_update_front(b: BookView, m: Map<OrderId, OrderMeta>, side: Side, li: int, x: u64)
    requires
        book_inv(b, m),
        0 <= li < side_levels(b, side).len(),
        side_levels(b, side)[li].orders.len() > 0,
    ensures
        ({
            let s = side_levels(b, side);
            let q = s[li].orders;
            book_inv(
                with_side_levels(
                    b,
                    side,
                    s.update(li, Level { price: s[li].price, orders: q.update(0, with_quantity(q[0], x)) }),
                ),
                m,
            )
        }),
{
    reveal(book_inv);
    lemma_book_valid_equiv(b);
    let s = side_levels(b, side);
    let q = s[li].orders;
    let nq = q.update(0, with_quantity(q[0], x));
    let ns = s.update(li, Level { price: s[li].price, orders: nq });
    let b2 = with_side_levels(b, side, ns);
    lemma_update_front(s, li, x, side);
    lemma_meta_update_front(m, s, side, li, x);
    if side == Side::Bid {
        assert(b2.asks == b.asks && b2.bids == ns);
    } else {
        assert(b2.bids == b.bids && b2.asks == ns);
    }
    assert forall|id: OrderId| !(#[trigger] rests_at(b2.bids, id) && rests_at(b2.asks, id)) by {
        assert(!(rests_at(b.bids, id) && rests_at(b.asks, id)));
    }
    assert forall|id: OrderId| #[trigger] m.dom().contains(id) implies rests_at(b2.bids, id)
        || rests_at(b2.asks, id) by {}
}

/// The quantity the front order keeps after executing against the taker.
pub open spec fn front_quantity_left(q: Seq<Order>, t: Order) -> u64 {
    let front = q[0];
    let traded = if front.quantity <= t.quantity { front.quantity } else { t.quantity };
    (front.quantity - traded) as u64
}

/// An execution that fills the front order, followed by its removal, is one
/// step of matching, and keeps the invariant with the index updated.
pub(crate) proof fn lemma_fill_step(
    b: BookView,
    t: Order,
    b_traded: BookView,
    m: Map<OrderId, OrderMeta>,
    m2: Map<OrderId, OrderMeta>,
    li: int,
)
    requires
        book_inv(b_traded, m),
        matching_continues(b, t),
        li == best_index(side_levels(b, opposite(t.side)), t.side),
        ({
            let os = opposite(t.side);
            let s = side_levels(b, os);
            let q = s[li].orders;
            let front = q[0];
            &&& front.quantity <= t.quantity
            &&& b_traded == BookView {
                trades: b.trades.push(
                    Trade { price: s[li].price, quantity: front.quantity, maker_id: front.id, taker_id: t.id },
                ),
                ..with_side_levels(
                    b,
                    os,
                    s.update(li, Level { price: s[li].price, orders: q.update(0, with_quantity(front, 0)) }),
                )
            }
        }),
        ({
            let os = opposite(t.side);
            let q = side_levels(b_traded, os)[li].orders;
            reindexed(m.remove(q[0].id), m2, q.remove(0), 0, side_levels(b_traded, os)[li].price, os)
        }),
    ensures
        ({
            let os = opposite(t.side);
            let after = with_side_levels(b_traded, os, levels_remove_at(side_levels(b_traded, os), li, 0));
            &&& book_inv(after, m2)
            &&& after == match_step(b, t).0
        }),
{
    let os = opposite(t.side);
    let s = side_levels(b, os);
    lemma_cancel_book(b_traded, m, os, li, 0, m2);
    lemma_remove_front_updated(s, li, with_quantity(s[li].orders[0], 0));
    let after = with_side_levels(b_traded, os, levels_remove_at(side_levels(b_traded, os), li, 0));
    if t.side == Side::Bid {
        assert(after =~= match_step(b, t).0);
    } else {
        assert(after =~= match_step(b, t).0);
    }
}

/// An execution that leaves the front order partly filled is one step of
/// matching.
pub(crate) proof fn lemma_partial_step(b: BookView, t: Order, b_traded: BookView, li: int)
    requires
        matching_continues(b, t),
        li == best_index(side_levels(b, opposite(t.side)), t.side),
        ({
            let os = opposite(t.side);
            let s = side_levels(b, os);
            let q = s[li].orders;
            let front = q[0];
            &&& front.quantity > t.quantity
            &&& b_traded == BookView {
                trades: b.trades.push(
                    Trade { price: s[li].price, quantity: t.quantity, maker_id: front.id, taker_id: t.id },
                ),
                ..with_side_levels(
                    b,
                    os,
                    s.update(
                        li,
                        Level {
                            price: s[li].price,
                            orders: q.update(0, with_quantity(front, (front.quantity - t.quantity) as u64)),
                        },
                    ),
                )
            }
        }),
    ensures
        b_traded == match_step(b, t).0,
{
    if t.side == Side::Bid {
        assert(b_traded =~= match_step(b, t).0);
    } else {
        assert(b_traded =~= match_step(b, t).0);
    }
}

/// Changing the quantity of the front order of a level keeps the index in
/// agreement with the side.
pub(crate) proof fn lemma_meta_update_front(m: Map<OrderId, OrderMeta>, s: Seq<Level>, side: Side, li: int, x: u64)
    requires
        ascending(s),
        meta_covers(m, s, side),
        0 <= li < s.len(),
        s[li].orders.len() > 0,
    ensures
        meta_covers(
            m,
            s.update(
                li,
                Level { price: s[li].price, orders: s[li].orders.update(0, with_quantity(s[li].orders[0], x)) },
            ),
            side,
        ),
{
    let q = s[li].orders;
    let nq = q.update(0, with_quantity(q[0], x));
    let ns = s.update(li, Level { price: s[li].price, orders: nq });
    lemma_update_level(s, li, nq);
    lemma_level_at_index(s, li);
    assert forall|p: Price, k: int| 0 <= k < level_at(ns, p).len() implies {
        let id = (#[trigger] level_at(ns, p)[k]).id;
        &&& m.dom().contains(id)
        &&& m[id].price_spec() == p
        &&& m[id].idx_spec() == k
        &&& m[id].side_spec() == side
    } by {
        assert(level_at(ns, p)[k].id == level_at(s, p)[k].id);
    }
}

/// The index has an entry exactly for the resting orders.
pub(crate) proof fn lemma_meta_dom(b: BookView, m: Map<OrderId, OrderMeta>, id: OrderId)
    requires
        book_inv(b, m),
    ensures
        m.dom().contains(id) <==> rests(b, id),
{
    if rests(b, id) {
        lemma_covers_rests(b, m, id);
    }
    reveal(book_inv);
    lemma_book_valid_equiv(b);
}

/// The empty book with the empty index satisfies the invariant.
pub(crate) proof fn lemma_inv_empty(b: BookView, m: Map<OrderId, OrderMeta>)
    requires
        b.bids.len() == 0,
        b.asks.len() == 0,
        m.dom() == Set::<OrderId>::empty(),
    ensures
        book_inv(b, m),
{
    reveal(book_inv);
    assert forall|p: Price| #[trigger] level_at(b.bids, p) == Seq::<Order>::empty() by {
        crate::model::lemma_insert_pos_bound(b.bids, p);
    }
    assert forall|p: Price| #[trigger] level_at(b.asks, p) == Seq::<Order>::empty() by {
        crate::model::lemma_insert_pos_bound(b.asks, p);
    }
    assert forall|id: OrderId| !m.dom().contains(id) by {}
}

} // verus!
