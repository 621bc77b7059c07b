use vstd::prelude::*;
use crate::types::{Order, OrderId, Price, Quantity, with_quantity};

verus! {

/// Sum of the quantities of a sequence of orders.
pub open spec fn sum_quantity(s: Seq<Order>) -> int
    decreases s.len(),
{
    if s.len() == 0 {
        0
    } else {
        sum_quantity(s.drop_last()) + s.last().quantity
    }
}

pub proof fn lemma_sum_nonnegative(s: Seq<Order>)
    ensures
        sum_quantity(s) >= 0,
    decreases s.len(),
{
    if s.len() > 0 {
        lemma_sum_nonnegative(s.drop_last());
    }
}

pub proof fn lemma_sum_push(s: Seq<Order>, o: Order)
    ensures
        sum_quantity(s.push(o)) == sum_quantity(s) + o.quantity,
{
    assert(s.push(o).drop_last() =~= s);
}

pub proof fn lemma_sum_update(s: Seq<Order>, i: int, o: Order)
    requires
        0 <= i < s.len(),
    ensures
        sum_quantity(s.update(i, o)) == sum_quantity(s) - s[i].quantity + o.quantity,
    decreases s.len(),
{
    let u = s.update(i, o);
    if i == s.len() - 1 {
        assert(u.drop_last() =~= s.drop_last());
    } else {
        lemma_sum_update(s.drop_last(), i, o);
        assert(u.drop_last() =~= s.drop_last().update(i, o));
    }
}

pub proof fn lemma_sum_remove(s: Seq<Order>, i: int)
    requires
        0 <= i < s.len(),
    ensures
        sum_quantity(s.remove(i)) == sum_quantity(s) - s[i].quantity,
    decreases s.len(),
{
    if i == s.len() - 1 {
        assert(s.remove(i) =~= s.drop_last());
    } else {
        lemma_sum_remove(s.drop_last(), i);
        assert(s.remove(i).drop_last() =~= s.drop_last().remove(i));
        assert(s.remove(i).last() == s.last());
    }
}

pub proof fn lemma_sum_bounds_each(s: Seq<Order>, i: int)
    requires
        0 <= i < s.len(),
    ensures
        s[i].quantity <= sum_quantity(s),
{
    lemma_sum_update(s, i, with_quantity(s[i], 0));
    lemma_sum_nonnegative(s.update(i, with_quantity(s[i], 0)));
}

/// What a price level holds: its price and its queue of orders, front first.
pub struct Level {
    pub price: Price,
    pub orders: Seq<Order>,
}

/// The orders resting at one price, in the order in which they are served.
#[derive(Debug)]
pub struct PriceLevel {
    pub price: Price,
    orders: Vec<Order>,
    total_volume: Quantity,
}

impl View for PriceLevel {
    type V = Level;

    closed spec fn view(&self) -> Level {
        Level { price: self.price, orders: self.orders@ }
    }
}

impl PriceLevel {

    /// The running total agrees with the orders it sums.
    pub closed spec fn wf(&self) -> bool {
        self.total_volume == sum_quantity(self.orders@)
    }

    pub fn new(price: Price) -> (level: Self)
        ensures
            level.wf(),
            level@.price == price,
            level@.orders == Seq::<Order>::empty(),
    {
        Self { price, orders: Vec::<Order>::new(), total_volume: 0 }
    }

    /// Append an order at the back of the queue; returns its position.
    pub fn add(&mut self, order: Order) -> (index: usize)
        requires
            old(self).wf(),
            sum_quantity(old(self)@.orders) + order.quantity <= u64::MAX,
        ensures
            final(self).wf(),
            final(self)@.price == old(self)@.price,
            final(self)@.orders == old(self)@.orders.push(order),
            index == old(self)@.orders.len(),
    {
        proof {
            lemma_sum_push(self.orders@, order);
        }
        let index = self.orders.len();
        self.total_volume += order.quantity;
        self.orders.push(order);
        index
    }

    /// Remove the order at `idx`; the orders behind it move up one place,
    /// keeping their arrival order. Returns the removed order and the id of
    /// the order that now stands at `idx`, if any.
    pub fn remove_at(&mut self, idx: usize) -> (res: (Order, Option<OrderId>))
        requires
            old(self).wf(),
            idx < old(self)@.orders.len(),
        ensures
            final(self).wf(),
            final(self)@.price == old(self)@.price,
            res.0 == old(self)@.orders[idx as int],
            final(self)@.orders == old(self)@.orders.remove(idx as int),
            res.1 == (if idx < final(self)@.orders.len() {
                Some(final(self)@.orders[idx as int].id)
            } else {
                None::<OrderId>
            }),
    {
        proof {
            lemma_sum_bounds_each(self.orders@, idx as int);
            lemma_sum_remove(self.orders@, idx as int);
        }
        self.total_volume -= self.orders[idx].quantity;
        let removed = self.orders.remove(idx);
        let moved_id = if idx < self.orders.len() {
            Some(self.orders[idx].id)
        } else {
            None
        };
        (removed, moved_id)
    }

    /// Trade the order at the front of the queue against `taker_qty` units:
    /// returns the quantity traded, the front order's id, and whether the
    /// front order is now filled.
    pub fn match_front(&mut self, taker_qty: Quantity) -> (res: (Quantity, OrderId, bool))
        requires
            old(self).wf(),
            old(self)@.orders.len() > 0,
        ensures
            final(self).wf(),
            final(self)@.price == old(self)@.price,
            ({
                let front = old(self)@.orders[0];
                let traded = if front.quantity <= taker_qty { front.quantity } else { taker_qty };
                &&& res.0 == traded
                &&& res.1 == front.id
                &&& res.2 == (front.quantity <= taker_qty)
                &&& final(self)@.orders == old(self)@.orders.update(
                    0,
                    with_quantity(front, (front.quantity - traded) as u64),
                )
            }),
    {
        let front = self.orders[0];
        let traded = if front.quantity <= taker_qty { front.quantity } else { taker_qty };
        let rest = Order { quantity: front.quantity - traded, ..front };
        proof {
            lemma_sum_bounds_each(self.orders@, 0);
            lemma_sum_update(self.orders@, 0, rest);
        }
        self.total_volume -= traded;
        self.orders.set(0, rest);
        (traded, front.id, front.quantity <= taker_qty)
    }

    /// The order at position `i` of the queue.
    pub fn order_at(&self, i: usize) -> (order: Order)
        requires
            i < self@.orders.len(),
        ensures
            order == self@.orders[i as int],
    {
        self.orders[i]
    }

    pub fn price(&self) -> (price: Price)
        ensures
            price == self@.price,
    {
        self.price
    }

    pub fn total_quantity(&self) -> (total: Quantity)
        requires
            self.wf(),
        ensures
            total == sum_quantity(self@.orders),
    {
        self.total_volume
    }

    pub fn is_empty(&self) -> (empty: bool)
        ensures
            empty == (self@.orders.len() == 0),
    {
        self.orders.is_empty()
    }

    pub fn order_count(&self) -> (count: usize)
        ensures
            count == self@.orders.len(),
    {
        self.orders.len()
    }
}

} // verus!
