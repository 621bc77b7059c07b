use latios_lob::{cancel_ids, mean, workload_orders, OrderBook, Side};

#[test]
fn workload_alternates_sides_over_levels() {
    let orders = workload_orders(45);
    assert_eq!(orders.len(), 45);
    assert_eq!((orders[0].id, orders[0].price, orders[0].side), (0, 100_000_000, Side::Bid));
    assert_eq!((orders[1].id, orders[1].price, orders[1].side), (1, 101_100_000, Side::Ask));
    assert_eq!((orders[2].price, orders[2].quantity, orders[2].timestamp), (99_800_000, 100, 2));
    assert_eq!(orders[21].price, 101_100_000);
    assert_eq!(orders[38].price, 98_200_000);
    assert!(workload_orders(0).is_empty());
}

#[test]
fn cancel_ids_follow_rate() {
    let ids = cancel_ids(250, 40);
    assert_eq!(ids.len(), 40 + 40 + 40);
    assert_eq!(ids[0], 0);
    assert_eq!(ids[39], 39);
    assert_eq!(ids[40], 100);
    assert_eq!(*ids.last().unwrap(), 239);
    assert!(cancel_ids(250, 0).is_empty());
    assert_eq!(cancel_ids(250, 100).len(), 250);
}

#[test]
fn mean_rounds_down() {
    assert_eq!(mean(&[1, 2, 4]), 2);
    assert_eq!(mean(&[5]), 5);
    assert_eq!(mean(&[u64::MAX]), u64::MAX);
}

#[test]
fn workload_runs_on_book() {
    let orders = workload_orders(1000);
    let ids = cancel_ids(1000, 40);
    let mut book = OrderBook::new();
    for o in &orders {
        assert!(book.can_rest(o));
        book.add_order(*o);
    }
    assert_eq!(book.bid_depth(), 10);
    assert_eq!(book.ask_depth(), 10);
    assert_eq!(book.best_bid(), Some(100_000_000));
    assert_eq!(book.best_ask(), Some(101_100_000));
    for &id in &ids {
        book.cancel_order(id);
    }
    assert_eq!(book.bid_depth(), 10);
    assert_eq!(book.cancel_order(0), latios_lob::OrderResult::NotFound(0));
    assert_eq!(book.cancel_order(41), latios_lob::OrderResult::Cancelled(41));
}
