use latios_lob::{Order, OrderBook, OrderId, OrderResult, Price, Side};

fn bid(id: OrderId, price: Price, qty: u64) -> Order {
    Order::new(id, price, qty, Side::Bid, id)
}
fn ask(id: OrderId, price: Price, qty: u64) -> Order {
    Order::new(id, price, qty, Side::Ask, id)
}

#[test]
fn best_bid_is_highest_after_cancelling_lowest() {
    // Levels stay in price order when a level in the middle or at the
    // bottom empties.
    let mut book = OrderBook::new();
    book.add_order(bid(1, 99, 10));
    book.add_order(bid(2, 100, 10));
    book.add_order(bid(3, 101, 10));
    assert_eq!(book.cancel_order(1), OrderResult::Cancelled(1));
    assert_eq!(book.best_bid(), Some(101));
    assert_eq!(book.cancel_order(3), OrderResult::Cancelled(3));
    assert_eq!(book.best_bid(), Some(100));
    assert_eq!(book.bid_depth(), 1);
}

#[test]
fn best_ask_is_lowest_after_cancelling_highest() {
    let mut book = OrderBook::new();
    book.add_order(ask(1, 201, 10));
    book.add_order(ask(2, 199, 10));
    book.add_order(ask(3, 200, 10));
    assert_eq!(book.cancel_order(2), OrderResult::Cancelled(2));
    assert_eq!(book.best_ask(), Some(200));
    assert_eq!(book.cancel_order(1), OrderResult::Cancelled(1));
    assert_eq!(book.best_ask(), Some(200));
}

#[test]
fn cancel_undoes_add() {
    let mut book = OrderBook::new();
    book.add_order(bid(1, 100, 10));
    book.add_order(ask(2, 105, 10));
    assert_eq!(book.add_order(bid(3, 102, 7)), OrderResult::Added(3));
    assert_eq!(book.best_bid(), Some(102));
    assert_eq!(book.bid_depth(), 2);
    assert_eq!(book.cancel_order(3), OrderResult::Cancelled(3));
    assert_eq!(book.best_bid(), Some(100));
    assert_eq!(book.bid_depth(), 1);
    assert_eq!(book.ask_depth(), 1);
}

#[test]
fn cancel_in_middle_of_queue_keeps_others() {
    let mut book = OrderBook::new();
    book.add_order(ask(1, 100, 1));
    book.add_order(ask(2, 100, 2));
    book.add_order(ask(3, 100, 3));
    assert_eq!(book.cancel_order(2), OrderResult::Cancelled(2));
    assert_eq!(book.cancel_order(1), OrderResult::Cancelled(1));
    assert_eq!(book.cancel_order(3), OrderResult::Cancelled(3));
    assert_eq!(book.ask_depth(), 0);
    assert_eq!(book.cancel_order(3), OrderResult::NotFound(3));
}

#[test]
fn mid_price_and_spread() {
    let mut book = OrderBook::new();
    assert_eq!(book.mid_price(), None);
    book.add_order(bid(1, 100, 10));
    assert_eq!(book.mid_price(), None);
    assert_eq!(book.spread(), None);
    book.add_order(ask(2, 103, 10));
    assert_eq!(book.mid_price(), Some(101));
    assert_eq!(book.spread(), Some(3));
}

#[test]
fn mid_price_of_large_prices_does_not_overflow() {
    let mut book = OrderBook::new();
    book.add_order(bid(1, 4_000_000_000, 1));
    book.add_order(ask(2, 4_000_000_001, 1));
    assert_eq!(book.mid_price(), Some(4_000_000_000));
}

#[test]
fn ask_taker_sweeps_bids_from_the_top() {
    let mut book = OrderBook::new();
    book.add_order(bid(1, 98, 5));
    book.add_order(bid(2, 100, 5));
    book.add_order(bid(3, 99, 5));
    assert_eq!(book.match_order(ask(4, 99, 12)), OrderResult::Added(4));
    let t = book.trades();
    assert_eq!(t.len(), 2);
    assert_eq!((t[0].price, t[0].quantity, t[0].maker_id, t[0].taker_id), (100, 5, 2, 4));
    assert_eq!((t[1].price, t[1].quantity, t[1].maker_id, t[1].taker_id), (99, 5, 3, 4));
    // the remaining 2 rest at 99 on the ask side; 98 still bid
    assert_eq!(book.best_bid(), Some(98));
    assert_eq!(book.best_ask(), Some(99));
    assert_eq!(book.cancel_order(4), OrderResult::Cancelled(4));
}

#[test]
fn taker_stops_at_its_limit() {
    let mut book = OrderBook::new();
    book.add_order(ask(1, 100, 5));
    book.add_order(ask(2, 102, 5));
    assert_eq!(book.match_order(bid(3, 101, 20)), OrderResult::Added(3));
    assert_eq!(book.trades().len(), 1);
    assert_eq!(book.best_ask(), Some(102));
    assert_eq!(book.best_bid(), Some(101));
    assert_eq!(book.spread(), Some(1));
}

#[test]
fn zero_quantity_taker_that_crosses_is_full_fill() {
    let mut book = OrderBook::new();
    book.add_order(ask(1, 100, 5));
    assert_eq!(book.match_order(bid(2, 100, 0)), OrderResult::FullFill(2));
    assert!(book.trades().is_empty());
    assert_eq!(book.ask_depth(), 1);
}

#[test]
fn makers_served_in_arrival_order() {
    // Three makers at one price are traded first come, first served.
    let mut book = OrderBook::new();
    book.add_order(ask(1, 100, 5));
    book.add_order(ask(2, 100, 5));
    book.add_order(ask(3, 100, 5));
    assert_eq!(book.match_order(bid(4, 100, 12)), OrderResult::FullFill(4));
    let t: Vec<_> = book
        .trades()
        .iter()
        .map(|t| (t.price, t.quantity, t.maker_id, t.taker_id))
        .collect();
    assert_eq!(t, vec![(100, 5, 1, 4), (100, 5, 2, 4), (100, 2, 3, 4)]);
    assert_eq!(book.ask_depth(), 1);
    assert_eq!(book.best_ask(), Some(100));
}

#[test]
fn cancel_front_keeps_arrival_order() {
    // After the front order of three is cancelled, the second is served
    // before the third.
    let mut book = OrderBook::new();
    book.add_order(ask(1, 100, 5));
    book.add_order(ask(2, 100, 5));
    book.add_order(ask(3, 100, 5));
    assert_eq!(book.cancel_order(1), OrderResult::Cancelled(1));
    assert_eq!(book.match_order(bid(4, 100, 7)), OrderResult::FullFill(4));
    let t: Vec<_> = book.trades().iter().map(|t| (t.maker_id, t.quantity)).collect();
    assert_eq!(t, vec![(2, 5), (3, 2)]);
}

#[test]
fn cancel_middle_keeps_arrival_order() {
    let mut book = OrderBook::new();
    for id in 1..=4 {
        book.add_order(bid(id, 100, 1));
    }
    assert_eq!(book.cancel_order(2), OrderResult::Cancelled(2));
    assert_eq!(book.match_order(ask(9, 100, 3)), OrderResult::FullFill(9));
    let makers: Vec<_> = book.trades().iter().map(|t| t.maker_id).collect();
    assert_eq!(makers, vec![1, 3, 4]);
    assert_eq!(book.bid_depth(), 0);
}

#[test]
fn orders_after_a_fill_keep_their_places_for_cancel() {
    // The index follows the orders that move up: each can still be cancelled.
    let mut book = OrderBook::new();
    for id in 1..=4 {
        book.add_order(ask(id, 100, 2));
    }
    assert_eq!(book.match_order(bid(9, 100, 3)), OrderResult::FullFill(9));
    assert_eq!(book.cancel_order(4), OrderResult::Cancelled(4));
    assert_eq!(book.cancel_order(2), OrderResult::Cancelled(2));
    assert_eq!(book.cancel_order(3), OrderResult::Cancelled(3));
    assert_eq!(book.cancel_order(1), OrderResult::NotFound(1));
    assert_eq!(book.ask_depth(), 0);
}

#[test]
fn duplicate_id_is_rejected_and_book_unchanged() {
    let mut book = OrderBook::new();
    assert_eq!(book.add_order(bid(1, 100, 10)), OrderResult::Added(1));
    assert_eq!(book.add_order(bid(1, 101, 5)), OrderResult::Rejected(1));
    assert_eq!(book.add_order(ask(1, 105, 5)), OrderResult::Rejected(1));
    assert_eq!(book.best_bid(), Some(100));
    assert_eq!(book.bid_depth(), 1);
    assert_eq!(book.ask_depth(), 0);
    assert!(book.trades().is_empty());
    assert_eq!(book.cancel_order(1), OrderResult::Cancelled(1));
    assert_eq!(book.bid_depth(), 0);
}

#[test]
fn remainder_with_resting_id_is_rejected() {
    let mut book = OrderBook::new();
    book.add_order(bid(1, 90, 4));
    book.add_order(ask(2, 100, 5));
    // bid 1 executes 5, and what is left of it cannot rest under an id in use
    assert_eq!(book.match_order(bid(1, 100, 8)), OrderResult::Rejected(1));
    assert_eq!(book.trades().len(), 1);
    assert_eq!(book.ask_depth(), 0);
    assert_eq!(book.best_bid(), Some(90));
}

#[test]
fn prices_above_32_bits_rest_and_cancel() {
    let mut book = OrderBook::new();
    assert_eq!(book.add_order(ask(1, 5_000_000_000, 10)), OrderResult::Added(1));
    assert_eq!(book.best_ask(), Some(5_000_000_000));
    assert_eq!(book.cancel_order(1), OrderResult::Cancelled(1));
    assert_eq!(book.ask_depth(), 0);
    assert_eq!(book.best_ask(), None);
}

#[test]
fn mid_price_at_the_top_of_the_range() {
    let mut book = OrderBook::new();
    book.add_order(bid(1, u64::MAX - 1, 1));
    book.add_order(ask(2, u64::MAX, 1));
    assert_eq!(book.mid_price(), Some(u64::MAX - 1));
    assert_eq!(book.spread(), Some(1));
}

#[test]
fn drain_trades_hands_out_and_clears() {
    let mut book = OrderBook::new();
    book.add_order(ask(1, 100, 5));
    book.match_order(bid(2, 100, 3));
    let drained = book.drain_trades();
    assert_eq!(drained.len(), 1);
    assert_eq!((drained[0].price, drained[0].quantity, drained[0].maker_id, drained[0].taker_id), (100, 3, 1, 2));
    assert!(book.trades().is_empty());
    assert_eq!(book.best_ask(), Some(100));
    book.match_order(bid(3, 100, 2));
    assert_eq!(book.trades().len(), 1);
    assert_eq!(book.ask_depth(), 0);
}

#[test]
fn can_rest_checks() {
    let mut book = OrderBook::new();
    assert!(book.can_rest(&bid(1, 100, 10)));
    book.add_order(bid(1, 100, 10));
    assert!(!book.can_rest(&bid(1, 100, 10)));
    assert!(!book.can_rest(&ask(1, 200, 10)));
    assert!(book.can_rest(&bid(2, 100, 10)));
    assert!(book.can_rest(&bid(3, 1u64 << 32, 10)));
    assert!(book.can_rest(&bid(3, u32::MAX as u64, 10)));
    assert!(!book.can_rest(&bid(4, 100, u64::MAX)));
    assert!(book.can_rest(&bid(4, 100, u64::MAX - 10)));
    assert!(book.can_rest(&ask(5, 100, u64::MAX)));
}

#[test]
fn default_book_is_empty() {
    let book: OrderBook = Default::default();
    assert_eq!(book.best_bid(), None);
    assert_eq!(book.bid_depth(), 0);
    assert_eq!(book.ask_depth(), 0);
    assert!(book.trades().is_empty());
}

#[test]
fn sweep_trades_conserve_quantity_and_respect_limit() {
    let mut book = OrderBook::new();
    book.add_order(ask(1, 100, 4));
    book.add_order(ask(2, 101, 6));
    book.add_order(ask(3, 103, 9));
    book.add_order(ask(4, 102, 3));
    assert_eq!(book.match_order(bid(9, 102, 20)), OrderResult::Added(9));
    let t = book.trades();
    let total: u64 = t.iter().map(|x| x.quantity).sum();
    // 4 + 6 + 3 executed; 7 of 20 left to rest at 102
    assert_eq!(total, 13);
    assert_eq!(t.len(), 3);
    for w in t.windows(2) {
        assert!(w[0].price <= w[1].price);
    }
    for x in t {
        assert!(x.price <= 102);
        assert_eq!(x.taker_id, 9);
    }
    // what rests does not cross: best bid 102 below best ask 103
    assert_eq!(book.best_bid(), Some(102));
    assert_eq!(book.best_ask(), Some(103));
    assert_eq!(book.spread(), Some(1));
    assert_eq!(book.cancel_order(9), OrderResult::Cancelled(9));
}

#[test]
fn matching_keeps_book_uncrossed() {
    let mut book = OrderBook::new();
    book.add_order(bid(1, 99, 5));
    book.add_order(ask(2, 101, 5));
    // an ask priced through the best bid executes instead of resting crossed
    assert_eq!(book.match_order(ask(3, 98, 8)), OrderResult::Added(3));
    assert_eq!(book.best_bid(), None);
    assert_eq!(book.best_ask(), Some(98));
    // a bid priced through the best ask executes, then rests below the next ask
    assert_eq!(book.match_order(bid(4, 100, 10)), OrderResult::Added(4));
    assert_eq!(book.best_bid(), Some(100));
    assert_eq!(book.best_ask(), Some(101));
    assert_eq!(book.spread(), Some(1));
}

#[test]
fn remainder_joins_back_of_its_queue() {
    let mut book = OrderBook::new();
    book.add_order(ask(1, 100, 5));
    book.add_order(bid(2, 99, 2));
    // bid 3 executes 5 and its remaining 3 rest at 99 behind bid 2
    assert_eq!(book.match_order(bid(3, 100, 8)), OrderResult::Added(3));
    assert_eq!(book.best_bid(), Some(100));
    book.drain_trades();
    assert_eq!(book.match_order(bid(4, 99, 1)), OrderResult::Added(4));
    assert_eq!(book.match_order(ask(5, 99, 6)), OrderResult::FullFill(5));
    let t: Vec<_> = book.trades().iter().map(|t| (t.price, t.maker_id, t.quantity)).collect();
    assert_eq!(t, vec![(100, 3, 3), (99, 2, 2), (99, 4, 1)]);
}

#[test]
fn trades_only_grow() {
    let mut book = OrderBook::new();
    book.add_order(ask(1, 100, 5));
    book.match_order(bid(2, 100, 2));
    assert_eq!(book.trades().len(), 1);
    book.add_order(bid(3, 90, 1));
    book.cancel_order(3);
    book.cancel_order(77);
    assert_eq!(book.trades().len(), 1);
    book.match_order(bid(4, 101, 4));
    let t: Vec<_> = book.trades().iter().map(|t| (t.maker_id, t.taker_id, t.quantity)).collect();
    assert_eq!(t, vec![(1, 2, 2), (1, 4, 3)]);
}

#[test]
fn depth_counts_distinct_prices() {
    let mut book = OrderBook::new();
    for (id, price) in [(1, 100), (2, 101), (3, 100), (4, 102), (5, 101)] {
        book.add_order(bid(id, price, 1));
    }
    assert_eq!(book.bid_depth(), 3);
    assert_eq!(book.cancel_order(2), OrderResult::Cancelled(2));
    assert_eq!(book.bid_depth(), 3);
    assert_eq!(book.cancel_order(5), OrderResult::Cancelled(5));
    assert_eq!(book.bid_depth(), 2);
}

#[test]
fn order_count_follows_adds_cancels_and_matches() {
    let mut book = OrderBook::new();
    for id in 1..=3 {
        assert_eq!(book.add_order(ask(id, 100 + id, 1)), OrderResult::Added(id));
    }
    assert_eq!(book.add_order(ask(2, 200, 1)), OrderResult::Rejected(2));
    // a taker that executes against two makers and rests its remainder
    assert_eq!(book.match_order(bid(4, 102, 5)), OrderResult::Added(4));
    // exactly two orders are left: ask 3 and bid 4
    let cancelled: Vec<u64> = (1..=4)
        .filter(|&id| book.cancel_order(id) == OrderResult::Cancelled(id))
        .collect();
    assert_eq!(cancelled, vec![3, 4]);
}

#[test]
fn matching_takes_traded_quantity_per_price() {
    let mut book = OrderBook::new();
    book.add_order(ask(1, 100, 5));
    book.add_order(ask(2, 101, 4));
    book.add_order(ask(3, 101, 2));
    assert_eq!(book.match_order(bid(4, 101, 7)), OrderResult::FullFill(4));
    // 5 traded at 100, 2 at 101: 4 left at 101
    let drained: Vec<_> = book.drain_trades().iter().map(|t| (t.price, t.quantity)).collect();
    assert_eq!(drained, vec![(100, 5), (101, 2)]);
    assert_eq!(book.match_order(bid(5, 101, 10)), OrderResult::Added(5));
    let t: Vec<_> = book.trades().iter().map(|t| (t.price, t.maker_id, t.quantity)).collect();
    assert_eq!(t, vec![(101, 2, 2), (101, 3, 2)]);
    assert_eq!(book.ask_depth(), 0);
}

#[test]
fn maker_loses_exactly_what_it_trades() {
    let mut book = OrderBook::new();
    book.add_order(ask(1, 100, 10));
    book.add_order(ask(2, 100, 4));
    assert_eq!(book.match_order(bid(3, 100, 3)), OrderResult::FullFill(3));
    // maker 1 has 7 left and is still first in line
    assert_eq!(book.match_order(bid(4, 100, 9)), OrderResult::FullFill(4));
    let t: Vec<_> = book.trades().iter().map(|t| (t.maker_id, t.taker_id, t.quantity)).collect();
    assert_eq!(t, vec![(1, 3, 3), (1, 4, 7), (2, 4, 2)]);
    // maker 2 keeps the 2 it did not trade
    assert_eq!(book.match_order(bid(5, 100, 5)), OrderResult::Added(5));
    assert_eq!(book.trades().last().map(|t| (t.maker_id, t.quantity)), Some((2, 2)));
}

#[test]
fn trade_log_holds_matches_since_last_drain() {
    let mut book = OrderBook::new();
    book.add_order(ask(1, 100, 3));
    book.add_order(ask(2, 101, 3));
    book.match_order(bid(3, 100, 1));
    book.drain_trades();
    book.add_order(bid(4, 90, 1));
    book.match_order(bid(5, 101, 4));
    book.cancel_order(4);
    book.match_order(bid(6, 101, 1));
    let t: Vec<_> = book.trades().iter().map(|t| (t.price, t.maker_id, t.taker_id, t.quantity)).collect();
    assert_eq!(t, vec![(100, 1, 5, 2), (101, 2, 5, 2), (101, 2, 6, 1)]);
}
