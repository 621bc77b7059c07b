use vstd::prelude::*;
use crate::types::{Order, OrderId, Side};

verus! {

/// Base bid price of the profiling workload: 100.000000.
pub const BID_BASE: u64 = 100_000_000;

/// Base ask price of the profiling workload: 101.000000.
pub const ASK_BASE: u64 = 101_000_000;

/// Price step between the workload's levels: 0.100000.
pub const TICK: u64 = 100_000;

/// Number of price levels on each side of the workload.
pub const LEVELS: u64 = 20;

/// The `i`-th order of the profiling workload: even ids bid below the bid
/// base, odd ids ask above the ask base, one tick apart over `LEVELS`
/// levels, 100 units each, stamped with their id.
pub open spec fn workload_order(i: u64) -> Order {
    if i % 2 == 0 {
        Order { id: i, price: (BID_BASE - (i % LEVELS) * TICK) as u64, quantity: 100, side: Side::Bid, timestamp: i }
    } else {
        Order { id: i, price: (ASK_BASE + (i % LEVELS) * TICK) as u64, quantity: 100, side: Side::Ask, timestamp: i }
    }
}

/// The first `n` orders of the profiling workload.
pub fn workload_orders(n: u64) -> (orders: Vec<Order>)
    ensures
        orders@.len() == n,
        forall|i: int| 0 <= i < n ==> #[trigger] orders@[i] == workload_order(i as u64),
{
    let mut orders: Vec<Order> = Vec::new();
    let mut i: u64 = 0;
    while i < n
        invariant
            i <= n,
            orders@.len() == i,
            forall|j: int| 0 <= j < i ==> #[trigger] orders@[j] == workload_order(j as u64),
        decreases n - i,
    {
        let o = if i % 2 == 0 {
            Order::new(i, BID_BASE - (i % LEVELS) * TICK, 100, Side::Bid, i)
        } else {
            Order::new(i, ASK_BASE + (i % LEVELS) * TICK, 100, Side::Ask, i)
        };
        orders.push(o);
        i = i + 1;
    }
    orders
}

/// The ids below `n` that the workload cancels: `cancel_rate` out of every
/// hundred, in increasing order.
pub fn cancel_ids(n: u64, cancel_rate: u64) -> (ids: Vec<OrderId>)
    ensures
        forall|i: int, j: int| 0 <= i < j < ids@.len() ==> ids@[i] < ids@[j],
        forall|i: int| 0 <= i < ids@.len() ==> #[trigger] ids@[i] < n && ids@[i] % 100 < cancel_rate,
        forall|id: u64| id < n && id % 100 < cancel_rate ==> ids@.contains(id),
{
    let mut ids: Vec<OrderId> = Vec::new();
    let mut i: u64 = 0;
    while i < n
        invariant
            i <= n,
            forall|a: int, b: int| 0 <= a < b < ids@.len() ==> ids@[a] < ids@[b],
            forall|a: int| 0 <= a < ids@.len() ==> #[trigger] ids@[a] < i && ids@[a] % 100 < cancel_rate,
            forall|id: u64| #![trigger ids@.contains(id)] id < i && id % 100 < cancel_rate ==> ids@.contains(id),
        decreases n - i,
    {
        if i % 100 < cancel_rate {
            let ghost before = ids@;
            ids.push(i);
            assert forall|id: u64| id < i + 1 && id % 100 < cancel_rate implies ids@.contains(id) by {
                if id < i {
                    assert(before.contains(id));
                    let k = choose|k: int| 0 <= k < before.len() && before[k] == id;
                    assert(ids@[k] == id);
                } else {
                    assert(ids@[before.len() as int] == id);
                }
            }
        }
        i = i + 1;
    }
    ids
}

/// Sum of a sample.
pub open spec fn sample_sum(s: Seq<u64>) -> int
    decreases s.len(),
{
    if s.len() == 0 {
        0
    } else {
        sample_sum(s.drop_last()) + s.last()
    }
}

/// The mean of a non-empty sample, rounded down.
pub fn mean(samples: &[u64]) -> (m: u64)
    requires
        samples@.len() > 0,
        sample_sum(samples@) <= u64::MAX,
    ensures
        m == sample_sum(samples@) / (samples@.len() as int),
        m * samples@.len() <= sample_sum(samples@) < (m + 1) * samples@.len(),
{
    let mut total: u64 = 0;
    let mut i: usize = 0;
    while i < samples.len()
        invariant
            i <= samples@.len(),
            total == sample_sum(samples@.subrange(0, i as int)),
            sample_sum(samples@) <= u64::MAX,
        decreases samples@.len() - i,
    {
        proof {
            lemma_sample_sum_prefix(samples@, i as int + 1);
            assert(samples@.subrange(0, i as int + 1).drop_last() =~= samples@.subrange(0, i as int));
        }
        total = total + samples[i];
        i = i + 1;
    }
    assert(samples@.subrange(0, samples@.len() as int) =~= samples@);
    let m = total / (samples.len() as u64);
    proof {
        let n = samples@.len() as int;
        let t = total as int;
        assert(m * n <= t < (m + 1) * n) by (nonlinear_arith)
            requires
                n > 0,
                t >= 0,
                m == t / n,
        ;
    }
    m
}

/// A prefix sums to no more than the whole sample.
proof fn lemma_sample_sum_prefix(s: Seq<u64>, k: int)
    requires
        0 <= k <= s.len(),
    ensures
        sample_sum(s.subrange(0, k)) <= sample_sum(s),
    decreases s.len(),
{
    if k < s.len() {
        lemma_sample_sum_prefix(s.drop_last(), k);
        assert(s.drop_last().subrange(0, k) =~= s.subrange(0, k));
    } else {
        assert(s.subrange(0, k) =~= s);
    }
}

} // verus!
