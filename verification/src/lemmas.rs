use vstd::prelude::*;
use crate::model::{
    BookView, book_valid, rests, best_index, level_step, match_loop, match_step, matching_continues,
    opposite, side_levels, best_level_len, ascending, has_level, holds_at, ids_disjoint, ids_unique,
    insert_pos, lemma_insert_pos_bound, lemma_level_at_index, lemma_levels_add,
    lemma_levels_remove_at, lemma_update_level, level_at, levels_add, levels_remove_at,
    levels_valid, rests_on,
};
use crate::price_level::Level;
use crate::types::{Order, OrderId, Price, Side, with_quantity};

verus! {

// A side seen through `level_at`: a queue for each price.

/// `levels_valid`, seen price by price.
pub open spec fn valid_at(levels: Seq<Level>, side: Side) -> bool {
    &&& ascending(levels)
    &&& forall|p: Price| has_level(levels, p) ==> #[trigger] level_at(levels, p).len() > 0
    &&& forall|p: Price, k: int|
        0 <= k < level_at(levels, p).len() ==> {
            &&& (#[trigger] level_at(levels, p)[k]).price == p
            &&& level_at(levels, p)[k].side == side
        }
}

/// `ids_unique`, seen price by price.
pub open spec fn unique_at(levels: Seq<Level>) -> bool {
    forall|p1: Price, k1: int, p2: Price, k2: int|
        0 <= k1 < level_at(levels, p1).len() && 0 <= k2 < level_at(levels, p2).len()
            && #[trigger] level_at(levels, p1)[k1].id == #[trigger] level_at(levels, p2)[k2].id
            ==> p1 == p2 && k1 == k2
}

/// `ids_disjoint`, seen price by price.
pub open spec fn disjoint_at(a: Seq<Level>, b: Seq<Level>) -> bool {
    forall|p1: Price, k1: int, p2: Price, k2: int|
        0 <= k1 < level_at(a, p1).len() && 0 <= k2 < level_at(b, p2).len() ==> #[trigger] level_at(
            a,
            p1,
        )[k1].id != #[trigger] level_at(b, p2)[k2].id
}

/// `rests_on`, seen price by price.
pub open spec fn rests_at(levels: Seq<Level>, id: OrderId) -> bool {
    exists|p: Price, k: int| 0 <= k < level_at(levels, p).len() && #[trigger] level_at(levels, p)[k].id == id
}

/// The queue at a price is that of the level standing at the price.
pub(crate) proof fn lemma_queue_level(levels: Seq<Level>, p: Price)
    requires
        ascending(levels),
        level_at(levels, p).len() > 0,
    ensures
        has_level(levels, p),
        0 <= insert_pos(levels, p) < levels.len(),
        levels[insert_pos(levels, p)].price == p,
        levels[insert_pos(levels, p)].orders == level_at(levels, p),
{
    lemma_insert_pos_bound(levels, p);
}

pub(crate) proof fn lemma_valid_equiv(levels: Seq<Level>, side: Side)
    requires
        ascending(levels),
    ensures
        levels_valid(levels, side) <==> valid_at(levels, side),
{
    if levels_valid(levels, side) {
        assert forall|p: Price| has_level(levels, p) implies #[trigger] level_at(levels, p).len() > 0 by {
            lemma_insert_pos_bound(levels, p);
        }
        assert forall|p: Price, k: int| 0 <= k < level_at(levels, p).len() implies {
            &&& (#[trigger] level_at(levels, p)[k]).price == p
            &&& level_at(levels, p)[k].side == side
        } by {
            lemma_queue_level(levels, p);
            let j = insert_pos(levels, p);
            assert(levels[j].orders[k] == level_at(levels, p)[k]);
        }
    }
    if valid_at(levels, side) {
        assert forall|li: int| 0 <= li < levels.len() implies #[trigger] levels[li].orders.len() > 0 by {
            lemma_level_at_index(levels, li);
        }
        assert forall|li: int, k: int| 0 <= li < levels.len() && 0 <= k < levels[li].orders.len() implies {
            &&& (#[trigger] levels[li].orders[k]).price == levels[li].price
            &&& levels[li].orders[k].side == side
        } by {
            lemma_level_at_index(levels, li);
            assert(level_at(levels, levels[li].price)[k] == levels[li].orders[k]);
        }
    }
}

pub(crate) proof fn lemma_unique_equiv(levels: Seq<Level>)
    requires
        ascending(levels),
    ensures
        ids_unique(levels) <==> unique_at(levels),
{
    if ids_unique(levels) {
        assert forall|p1: Price, k1: int, p2: Price, k2: int|
            0 <= k1 < level_at(levels, p1).len() && 0 <= k2 < level_at(levels, p2).len()
                && #[trigger] level_at(levels, p1)[k1].id == #[trigger] level_at(levels, p2)[k2].id
            implies p1 == p2 && k1 == k2 by {
            lemma_queue_level(levels, p1);
            lemma_queue_level(levels, p2);
            let (j1, j2) = (insert_pos(levels, p1), insert_pos(levels, p2));
            assert(levels[j1].orders[k1] == level_at(levels, p1)[k1]);
            assert(levels[j2].orders[k2] == level_at(levels, p2)[k2]);
        }
    }
    if unique_at(levels) {
        assert forall|l1: int, k1: int, l2: int, k2: int|
            0 <= l1 < levels.len() && 0 <= k1 < levels[l1].orders.len() && 0 <= l2 < levels.len() && 0
                <= k2 < levels[l2].orders.len() && #[trigger] levels[l1].orders[k1].id
                == #[trigger] levels[l2].orders[k2].id implies l1 == l2 && k1 == k2 by {
            lemma_level_at_index(levels, l1);
            lemma_level_at_index(levels, l2);
            assert(level_at(levels, levels[l1].price)[k1] == levels[l1].orders[k1]);
            assert(level_at(levels, levels[l2].price)[k2] == levels[l2].orders[k2]);
        }
    }
}

pub(crate) proof fn lemma_disjoint_equiv(a: Seq<Level>, b: Seq<Level>)
    requires
        ascending(a),
        ascending(b),
    ensures
        ids_disjoint(a, b) <==> disjoint_at(a, b),
{
    if ids_disjoint(a, b) {
        assert forall|p1: Price, k1: int, p2: Price, k2: int|
            0 <= k1 < level_at(a, p1).len() && 0 <= k2 < level_at(b, p2).len() implies #[trigger] level_at(
            a,
            p1,
        )[k1].id != #[trigger] level_at(b, p2)[k2].id by {
            lemma_queue_level(a, p1);
            lemma_queue_level(b, p2);
            let (j1, j2) = (insert_pos(a, p1), insert_pos(b, p2));
            assert(a[j1].orders[k1] == level_at(a, p1)[k1]);
            assert(b[j2].orders[k2] == level_at(b, p2)[k2]);
        }
    }
    if disjoint_at(a, b) {
        assert forall|l1: int, k1: int, l2: int, k2: int|
            0 <= l1 < a.len() && 0 <= k1 < a[l1].orders.len() && 0 <= l2 < b.len() && 0 <= k2
                < b[l2].orders.len() implies #[trigger] a[l1].orders[k1].id
            != #[trigger] b[l2].orders[k2].id by {
            lemma_level_at_index(a, l1);
            lemma_level_at_index(b, l2);
            assert(level_at(a, a[l1].price)[k1] == a[l1].orders[k1]);
            assert(level_at(b, b[l2].price)[k2] == b[l2].orders[k2]);
        }
    }
}

pub(crate) proof fn lemma_rests_equiv(levels: Seq<Level>, id: OrderId)
    requires
        ascending(levels),
    ensures
        rests_on(levels, id) <==> rests_at(levels, id),
{
    if rests_on(levels, id) {
        let (li, k) = choose|li: int, k: int| holds_at(levels, id, li, k);
        lemma_level_at_index(levels, li);
        assert(level_at(levels, levels[li].price)[k] == levels[li].orders[k]);
    }
    if rests_at(levels, id) {
        let (p, k) = choose|p: Price, k: int|
            0 <= k < level_at(levels, p).len() && #[trigger] level_at(levels, p)[k].id == id;
        lemma_queue_level(levels, p);
        let li = insert_pos(levels, p);
        assert(holds_at(levels, id, li, k));
    }
}

/// Some order of queue `q` has id `id`.
pub open spec fn queue_has(q: Seq<Order>, id: OrderId) -> bool {
    exists|k: int| 0 <= k < q.len() && #[trigger] q[k].id == id
}

/// No id occurs twice in queue `q`.
pub open spec fn queue_unique(q: Seq<Order>) -> bool {
    forall|k1: int, k2: int|
        0 <= k1 < q.len() && 0 <= k2 < q.len() && #[trigger] q[k1].id == #[trigger] q[k2].id ==> k1
            == k2
}

pub(crate) proof fn lemma_disjoint_rests(a: Seq<Level>, b: Seq<Level>)
    ensures
        disjoint_at(a, b) <==> forall|id: OrderId| !(#[trigger] rests_at(a, id) && rests_at(b, id)),
{
    if disjoint_at(a, b) {
        assert forall|id: OrderId| !(#[trigger] rests_at(a, id) && rests_at(b, id)) by {
            if rests_at(a, id) && rests_at(b, id) {
                let (p1, k1) = choose|p: Price, k: int|
                    0 <= k < level_at(a, p).len() && #[trigger] level_at(a, p)[k].id == id;
                let (p2, k2) = choose|p: Price, k: int|
                    0 <= k < level_at(b, p).len() && #[trigger] level_at(b, p)[k].id == id;
                assert(level_at(a, p1)[k1].id != level_at(b, p2)[k2].id);
            }
        }
    }
    if forall|id: OrderId| !(#[trigger] rests_at(a, id) && rests_at(b, id)) {
        assert forall|p1: Price, k1: int, p2: Price, k2: int|
            0 <= k1 < level_at(a, p1).len() && 0 <= k2 < level_at(b, p2).len() implies #[trigger] level_at(
            a,
            p1,
        )[k1].id != #[trigger] level_at(b, p2)[k2].id by {
            let id = level_at(a, p1)[k1].id;
            assert(rests_at(a, id));
            if level_at(b, p2)[k2].id == id {
                assert(rests_at(b, id));
            }
        }
    }
}

/// A side in which only the queue at `p0` changed, to `q`, stays well formed
/// and free of repeated ids when `q` is; its ids are those of the other
/// queues and of `q`.
pub(crate) proof fn lemma_replace_queue(old: Seq<Level>, new: Seq<Level>, p0: Price, q: Seq<Order>, side: Side)
    requires
        ascending(new),
        valid_at(old, side),
        unique_at(old),
        forall|p: Price| p != p0 ==> #[trigger] level_at(new, p) == level_at(old, p),
        forall|p: Price| p != p0 ==> #[trigger] has_level(new, p) == has_level(old, p),
        level_at(new, p0) == q,
        has_level(new, p0) ==> q.len() > 0,
        forall|k: int| 0 <= k < q.len() ==> (#[trigger] q[k]).price == p0 && q[k].side == side,
        queue_unique(q),
        forall|id: OrderId|
            #[trigger] queue_has(q, id) && !queue_has(level_at(old, p0), id) ==> !rests_at(old, id),
    ensures
        valid_at(new, side),
        unique_at(new),
        forall|id: OrderId|
            #[trigger] rests_at(new, id) <==> (rests_at(old, id) && !queue_has(level_at(old, p0), id))
                || queue_has(q, id),
{
    assert forall|p: Price| has_level(new, p) implies #[trigger] level_at(new, p).len() > 0 by {
        if p != p0 {
            assert(level_at(old, p).len() > 0);
        }
    }
    assert forall|p: Price, k: int| 0 <= k < level_at(new, p).len() implies {
        &&& (#[trigger] level_at(new, p)[k]).price == p
        &&& level_at(new, p)[k].side == side
    } by {
        if p != p0 {
            assert(level_at(old, p)[k] == level_at(new, p)[k]);
        } else {
            assert(q[k] == level_at(new, p)[k]);
        }
    }
    assert forall|p1: Price, k1: int, p2: Price, k2: int|
        0 <= k1 < level_at(new, p1).len() && 0 <= k2 < level_at(new, p2).len()
            && #[trigger] level_at(new, p1)[k1].id == #[trigger] level_at(new, p2)[k2].id implies p1
        == p2 && k1 == k2 by {
        let id = level_at(new, p1)[k1].id;
        if p1 != p0 && p2 != p0 {
            assert(level_at(old, p1)[k1] == level_at(new, p1)[k1]);
            assert(level_at(old, p2)[k2] == level_at(new, p2)[k2]);
        } else if p1 == p0 && p2 == p0 {
            assert(q[k1].id == q[k2].id);
        } else {
            let (pq, kq, po, ko) = if p1 == p0 { (p1, k1, p2, k2) } else { (p2, k2, p1, k1) };
            assert(level_at(old, po)[ko] == level_at(new, po)[ko]);
            assert(q[kq].id == id);
            assert(queue_has(q, id));
            assert(rests_at(old, id));
            if queue_has(level_at(old, p0), id) {
                let kk = choose|k: int| 0 <= k < level_at(old, p0).len() && #[trigger] level_at(
                    old,
                    p0,
                )[k].id == id;
                assert(level_at(old, p0)[kk].id == level_at(old, po)[ko].id);
            }
        }
    }
    assert forall|id: OrderId| #[trigger] rests_at(new, id) <==> (rests_at(old, id) && !queue_has(
        level_at(old, p0),
        id,
    )) || queue_has(q, id) by {
        if rests_at(new, id) {
            let (p, k) = choose|p: Price, k: int|
                0 <= k < level_at(new, p).len() && #[trigger] level_at(new, p)[k].id == id;
            if p == p0 {
                assert(q[k].id == id);
            } else {
                assert(level_at(old, p)[k] == level_at(new, p)[k]);
                assert(rests_at(old, id));
                if queue_has(level_at(old, p0), id) {
                    let kk = choose|k: int| 0 <= k < level_at(old, p0).len() && #[trigger] level_at(
                        old,
                        p0,
                    )[k].id == id;
                    assert(level_at(old, p0)[kk].id == level_at(old, p)[k].id);
                }
            }
        }
        if queue_has(q, id) {
            let k = choose|k: int| 0 <= k < q.len() && #[trigger] q[k].id == id;
            assert(level_at(new, p0)[k].id == id);
        }
        if rests_at(old, id) && !queue_has(level_at(old, p0), id) {
            let (p, k) = choose|p: Price, k: int|
                0 <= k < level_at(old, p).len() && #[trigger] level_at(old, p)[k].id == id;
            if p == p0 {
                assert(queue_has(level_at(old, p0), id));
            } else {
                assert(level_at(old, p)[k] == level_at(new, p)[k]);
            }
        }
    }
}

/// Each position of `s.remove(k)` holds the element of `s` at the same
/// position before `k`, and at the next position from `k` on.
pub(crate) proof fn lemma_remove_index<A>(s: Seq<A>, k: int, j: int)
    requires
        0 <= k < s.len(),
        0 <= j < s.len() - 1,
    ensures
        s.remove(k).len() == s.len() - 1,
        s.remove(k)[j] == if j < k {
            s[j]
        } else {
            s[j + 1]
        },
{
    s.remove_ensures(k);
}

/// Queueing `o` on its own side keeps that side well formed and free of
/// repeated ids, and adds exactly `o.id` to its ids.
pub(crate) proof fn lemma_add_side(levels: Seq<Level>, o: Order)
    requires
        valid_at(levels, o.side),
        unique_at(levels),
        !rests_at(levels, o.id),
    ensures
        valid_at(levels_add(levels, o), o.side),
        unique_at(levels_add(levels, o)),
        forall|id: OrderId|
            #[trigger] rests_at(levels_add(levels, o), id) <==> rests_at(levels, id) || id == o.id,
{
    let new = levels_add(levels, o);
    let oq = level_at(levels, o.price);
    let q = oq.push(o);
    lemma_levels_add(levels, o);
    assert forall|k: int| 0 <= k < q.len() implies (#[trigger] q[k]).price == o.price && q[k].side
        == o.side by {
        if k < oq.len() {
            assert(oq[k] == level_at(levels, o.price)[k]);
        }
    }
    assert forall|id: OrderId| #[trigger] queue_has(q, id) <==> queue_has(oq, id) || id == o.id by {
        if queue_has(q, id) {
            let k = choose|k: int| 0 <= k < q.len() && #[trigger] q[k].id == id;
            if k < oq.len() {
                assert(oq[k].id == id);
            }
        }
        if queue_has(oq, id) {
            let k = choose|k: int| 0 <= k < oq.len() && #[trigger] oq[k].id == id;
            assert(q[k].id == id);
        }
        if id == o.id {
            assert(q[oq.len() as int].id == id);
        }
    }
    assert forall|k1: int, k2: int|
        0 <= k1 < q.len() && 0 <= k2 < q.len() && #[trigger] q[k1].id == #[trigger] q[k2].id implies k1
        == k2 by {
        if k1 < oq.len() && k2 < oq.len() {
            assert(level_at(levels, o.price)[k1].id == level_at(levels, o.price)[k2].id);
        } else if k1 < oq.len() {
            assert(rests_at(levels, level_at(levels, o.price)[k1].id));
        } else if k2 < oq.len() {
            assert(rests_at(levels, level_at(levels, o.price)[k2].id));
        }
    }
    assert forall|id: OrderId| #[trigger] queue_has(oq, id) implies rests_at(levels, id) by {
        let k = choose|k: int| 0 <= k < oq.len() && #[trigger] oq[k].id == id;
        assert(level_at(levels, o.price)[k].id == id);
    }
    lemma_replace_queue(levels, new, o.price, q, o.side);
}

/// Removing the order at position `k` of level `li` keeps the side well
/// formed and free of repeated ids, and takes exactly that order's id out.
pub(crate) proof fn lemma_remove_side(levels: Seq<Level>, li: int, k: int, side: Side)
    requires
        valid_at(levels, side),
        unique_at(levels),
        0 <= li < levels.len(),
        0 <= k < levels[li].orders.len(),
    ensures
        valid_at(levels_remove_at(levels, li, k), side),
        unique_at(levels_remove_at(levels, li, k)),
        forall|id: OrderId|
            #[trigger] rests_at(levels_remove_at(levels, li, k), id) <==> rests_at(levels, id) && id
                != levels[li].orders[k].id,
{
    let new = levels_remove_at(levels, li, k);
    let p0 = levels[li].price;
    let oq = levels[li].orders;
    let q = oq.remove(k);
    let r = oq[k].id;
    lemma_levels_remove_at(levels, li, k);
    lemma_level_at_index(levels, li);
    assert forall|j: int| 0 <= j < q.len() implies (#[trigger] q[j]).price == p0 && q[j].side == side
        && (q[j].id != r) by {
        lemma_remove_index(oq, k, j);
        let src = if j < k { j } else { j + 1 };
        assert(q[j] == level_at(levels, p0)[src]);
        assert(level_at(levels, p0)[k].id == r);
    }
    assert forall|j1: int, j2: int|
        0 <= j1 < q.len() && 0 <= j2 < q.len() && #[trigger] q[j1].id == #[trigger] q[j2].id implies j1
        == j2 by {
        lemma_remove_index(oq, k, j1);
        lemma_remove_index(oq, k, j2);
        let s1 = if j1 < k { j1 } else { j1 + 1 };
        let s2 = if j2 < k { j2 } else { j2 + 1 };
        assert(level_at(levels, p0)[s1].id == level_at(levels, p0)[s2].id);
    }
    assert forall|id: OrderId| #[trigger] queue_has(q, id) <==> queue_has(oq, id) && id != r by {
        if queue_has(q, id) {
            let j = choose|j: int| 0 <= j < q.len() && #[trigger] q[j].id == id;
            lemma_remove_index(oq, k, j);
            let src = if j < k { j } else { j + 1 };
            assert(oq[src].id == id);
        }
        if queue_has(oq, id) && id != r {
            let j = choose|j: int| 0 <= j < oq.len() && #[trigger] oq[j].id == id;
            let dst = if j < k { j } else { j - 1 };
            lemma_remove_index(oq, k, dst);
            assert(q[dst].id == id);
        }
    }
    assert(has_level(new, p0) ==> q.len() > 0);
    lemma_replace_queue(levels, new, p0, q, side);
    assert forall|id: OrderId| #[trigger] rests_at(new, id) <==> rests_at(levels, id) && id != r by {
        if rests_at(levels, id) && id != r && !queue_has(q, id) {
            if queue_has(oq, id) {
                assert(queue_has(q, id));
            }
        }
        if id == r {
            assert(level_at(levels, p0)[k].id == r);
            if rests_at(levels, id) && !queue_has(oq, id) {
                assert(queue_has(oq, id));
            }
        }
    }
}

/// Changing the quantity of the front order of level `li` changes neither
/// the shape of the side nor its ids.
pub(crate) proof fn lemma_update_front(levels: Seq<Level>, li: int, x: u64, side: Side)
    requires
        valid_at(levels, side),
        unique_at(levels),
        0 <= li < levels.len(),
        levels[li].orders.len() > 0,
    ensures
        ({
            let new = levels.update(
                li,
                Level {
                    price: levels[li].price,
                    orders: levels[li].orders.update(0, with_quantity(levels[li].orders[0], x)),
                },
            );
            &&& valid_at(new, side)
            &&& unique_at(new)
            &&& forall|id: OrderId| #[trigger] rests_at(new, id) <==> rests_at(levels, id)
        }),
{
    let p0 = levels[li].price;
    let oq = levels[li].orders;
    let q = oq.update(0, with_quantity(oq[0], x));
    let new = levels.update(li, Level { price: p0, orders: q });
    lemma_update_level(levels, li, q);
    lemma_level_at_index(levels, li);
    assert forall|j: int| 0 <= j < q.len() implies (#[trigger] q[j]).price == p0 && q[j].side == side
        && q[j].id == oq[j].id by {
        assert(oq[j] == level_at(levels, p0)[j]);
    }
    assert forall|j1: int, j2: int|
        0 <= j1 < q.len() && 0 <= j2 < q.len() && #[trigger] q[j1].id == #[trigger] q[j2].id implies j1
        == j2 by {
        assert(level_at(levels, p0)[j1].id == level_at(levels, p0)[j2].id);
    }
    assert forall|id: OrderId| #[trigger] queue_has(q, id) <==> queue_has(oq, id) by {
        if queue_has(q, id) {
            let j = choose|j: int| 0 <= j < q.len() && #[trigger] q[j].id == id;
            assert(oq[j].id == id);
        }
        if queue_has(oq, id) {
            let j = choose|j: int| 0 <= j < oq.len() && #[trigger] oq[j].id == id;
            assert(q[j].id == id);
        }
    }
    lemma_replace_queue(levels, new, p0, q, side);
    assert forall|id: OrderId| #[trigger] rests_at(new, id) <==> rests_at(levels, id) by {
        if queue_has(oq, id) {
            let j = choose|j: int| 0 <= j < oq.len() && #[trigger] oq[j].id == id;
            assert(level_at(levels, p0)[j].id == id);
        }
    }
}

/// `book_valid`, seen price by price.
pub open spec fn book_valid_at(b: BookView) -> bool {
    &&& valid_at(b.bids, Side::Bid)
    &&& valid_at(b.asks, Side::Ask)
    &&& unique_at(b.bids)
    &&& unique_at(b.asks)
    &&& forall|id: OrderId| !(#[trigger] rests_at(b.bids, id) && rests_at(b.asks, id))
}

pub(crate) proof fn lemma_book_valid_equiv(b: BookView)
    requires
        ascending(b.bids),
        ascending(b.asks),
    ensures
        book_valid(b) <==> book_valid_at(b),
        forall|id: OrderId| #[trigger] rests(b, id) <==> rests_at(b.bids, id) || rests_at(b.asks, id),
{
    lemma_valid_equiv(b.bids, Side::Bid);
    lemma_valid_equiv(b.asks, Side::Ask);
    lemma_unique_equiv(b.bids);
    lemma_unique_equiv(b.asks);
    lemma_disjoint_equiv(b.bids, b.asks);
    lemma_disjoint_rests(b.bids, b.asks);
    assert forall|id: OrderId| #[trigger] rests(b, id) <==> rests_at(b.bids, id) || rests_at(b.asks, id) by {
        lemma_rests_equiv(b.bids, id);
        lemma_rests_equiv(b.asks, id);
    }
}

/// Removing the front order of a level does not depend on what the front
/// order held.
pub(crate) proof fn lemma_remove_front_updated(levels: Seq<Level>, li: int, x: Order)
    requires
        0 <= li < levels.len(),
        levels[li].orders.len() > 0,
    ensures
        levels_remove_at(
            levels.update(li, Level { price: levels[li].price, orders: levels[li].orders.update(0, x) }),
            li,
            0,
        ) == levels_remove_at(levels, li, 0),
{
    let q = levels[li].orders;
    let u = q.update(0, x);
    let nl = levels.update(li, Level { price: levels[li].price, orders: u });
    assert(u.remove(0) =~= q.remove(0));
    if q.remove(0).len() == 0 {
        assert(nl.remove(li) =~= levels.remove(li));
    } else {
        assert(nl.update(li, Level { price: levels[li].price, orders: u.remove(0) }) =~= levels.update(
            li,
            Level { price: levels[li].price, orders: q.remove(0) },
        ));
    }
}

/// One execution keeps the book well formed, leaves the taker's side alone,
/// puts no new id on the opposite side, and only lowers the taker's quantity.
pub(crate) proof fn lemma_step_valid(b: BookView, t: Order)
    requires
        book_valid_at(b),
        matching_continues(b, t),
    ensures
        ({
            let (b2, t2) = match_step(b, t);
            &&& book_valid_at(b2)
            &&& side_levels(b2, t.side) == side_levels(b, t.side)
            &&& forall|id: OrderId|
                #[trigger] rests_at(side_levels(b2, opposite(t.side)), id) ==> rests_at(
                    side_levels(b, opposite(t.side)),
                    id,
                )
            &&& t2 == with_quantity(t, t2.quantity)
            &&& t2.quantity <= t.quantity
            &&& b2.trades.len() == b.trades.len() + 1
        }),
{
    let os = opposite(t.side);
    let o = side_levels(b, os);
    let li = best_index(o, t.side);
    let maker = o[li].orders[0];
    let (rest, t2, trade) = level_step(o, li, t);
    let b2 = match_step(b, t).0;
    if maker.quantity <= t.quantity {
        lemma_remove_side(o, li, 0, os);
    } else {
        lemma_update_front(o, li, (maker.quantity - t.quantity) as u64, os);
    }
    if t.side == Side::Bid {
        assert(b2.bids == b.bids && b2.asks == rest);
    } else {
        assert(b2.asks == b.asks && b2.bids == rest);
    }
    assert forall|id: OrderId| !(#[trigger] rests_at(b2.bids, id) && rests_at(b2.asks, id)) by {
        assert(!(rests_at(b.bids, id) && rests_at(b.asks, id)));
    }
}

/// Matching keeps the book well formed, leaves the taker's side alone, puts
/// no new id on the opposite side, only lowers the taker's quantity, and
/// stops where no further execution is possible.
pub(crate) proof fn lemma_match_loop_frame(b: BookView, t: Order)
    requires
        book_valid_at(b),
    ensures
        ({
            let (b2, t2) = match_loop(b, t);
            &&& book_valid_at(b2)
            &&& side_levels(b2, t.side) == side_levels(b, t.side)
            &&& forall|id: OrderId|
                #[trigger] rests_at(side_levels(b2, opposite(t.side)), id) ==> rests_at(
                    side_levels(b, opposite(t.side)),
                    id,
                )
            &&& t2 == with_quantity(t, t2.quantity)
            &&& t2.quantity <= t.quantity
            &&& !matching_continues(b2, t2)
        }),
    decreases t.quantity, side_levels(b, opposite(t.side)).len(), best_level_len(b, t),
{
    if matching_continues(b, t) {
        let (b1, t1) = match_step(b, t);
        lemma_step_valid(b, t);
        lemma_match_loop_frame(b1, t1);
    }
}

} // verus!
