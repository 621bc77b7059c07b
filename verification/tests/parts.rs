use latios_lob::{percentile, Arena, Order, PriceLevel, Side};

fn order(id: u64, qty: u64) -> Order {
    Order::new(id, 100, qty, Side::Ask, 7)
}

#[test]
fn order_new_and_filled() {
    let o = Order::new(1, 2, 3, Side::Bid, 4);
    assert_eq!((o.id, o.price, o.quantity, o.side, o.timestamp), (1, 2, 3, Side::Bid, 4));
    assert!(!o.is_filled());
    assert!(Order::new(1, 2, 0, Side::Ask, 4).is_filled());
}

#[test]
fn price_level_add_and_totals() {
    let mut level = PriceLevel::new(100);
    assert!(level.is_empty());
    assert_eq!(level.price(), 100);
    assert_eq!(level.add(order(1, 5)), 0);
    assert_eq!(level.add(order(2, 7)), 1);
    assert_eq!(level.order_count(), 2);
    assert_eq!(level.total_quantity(), 12);
    assert!(!level.is_empty());
}

#[test]
fn price_level_remove_at_keeps_arrival_order() {
    let mut level = PriceLevel::new(100);
    level.add(order(1, 5));
    level.add(order(2, 7));
    level.add(order(3, 9));
    let (removed, moved) = level.remove_at(0);
    assert_eq!(removed.id, 1);
    assert_eq!(moved, Some(2));
    assert_eq!(level.total_quantity(), 16);
    let (removed, moved) = level.remove_at(1);
    assert_eq!(removed.id, 3);
    assert_eq!(moved, None);
    assert_eq!(level.order_count(), 1);
    assert_eq!(level.total_quantity(), 7);
    assert_eq!(level.order_at(0).id, 2);
}

#[test]
fn price_level_match_front() {
    let mut level = PriceLevel::new(100);
    level.add(order(1, 5));
    level.add(order(2, 7));
    assert_eq!(level.match_front(3), (3, 1, false));
    assert_eq!(level.total_quantity(), 9);
    assert_eq!(level.match_front(10), (2, 1, true));
    assert_eq!(level.total_quantity(), 7);
}

#[test]
fn price_levels_compare_by_price() {
    let mut a = PriceLevel::new(100);
    a.add(order(1, 5));
    let b = PriceLevel::new(100);
    let c = PriceLevel::new(101);
    assert!(a == b);
    assert!(a != c);
    assert!(a < c);
    assert!(c > b);
    assert_eq!(a.partial_cmp(&c), Some(std::cmp::Ordering::Less));
    assert_eq!(a.partial_cmp(&b), Some(std::cmp::Ordering::Equal));
}

#[test]
fn percentile_ranks() {
    let sample: Vec<u64> = (1..=1000).collect();
    assert_eq!(percentile(&sample, 500), 500);
    assert_eq!(percentile(&sample, 990), 990);
    assert_eq!(percentile(&sample, 999), 999);
    assert_eq!(percentile(&sample, 1000), 1000);
    assert_eq!(percentile(&sample, 0), 1);
    assert_eq!(percentile(&[], 500), 0);
    assert_eq!(percentile(&[7, 9], 500), 7);
    assert_eq!(percentile(&[7, 9], 2000), 9);
}

#[test]
fn arena_allocates_values() {
    let arena = Arena::new();
    let x = arena.allocate(41u64);
    *x += 1;
    assert_eq!(*x, 42);
    let y = arena.allocate([1u8, 2, 3]);
    assert_eq!(*y, [1, 2, 3]);
    assert!(arena.allocated_bytes() >= 8);
}

#[test]
fn arena_reset_and_capacity() {
    let mut arena = Arena::with_capacity(1024);
    assert!(arena.allocated_bytes() >= 1024);
    {
        let v = arena.allocate(5u32);
        assert_eq!(*v, 5);
    }
    arena.reset();
    let w = arena.allocate(6u32);
    assert_eq!(*w, 6);
    let d: Arena = Default::default();
    assert_eq!(*d.allocate(1i32), 1);
}

#[test]
fn price_level_count_after_interleaved_calls() {
    let mut level = PriceLevel::new(100);
    level.add(order(1, 1));
    level.add(order(2, 1));
    level.add(order(3, 1));
    level.remove_at(1);
    level.add(order(4, 1));
    level.add(order(5, 1));
    level.remove_at(0);
    level.remove_at(2);
    // 5 additions, 3 removals
    assert_eq!(level.order_count(), 2);
    assert_eq!(level.order_at(0).id, 3);
    assert_eq!(level.order_at(1).id, 4);
}

#[test]
fn percentile_is_nearest_rank() {
    let s = [10u64, 20, 30, 40];
    assert_eq!(percentile(&s, 250), 10);
    assert_eq!(percentile(&s, 251), 20);
    assert_eq!(percentile(&s, 750), 30);
    assert_eq!(percentile(&s, 751), 40);
    assert_eq!(percentile(&[5], 999), 5);
}
