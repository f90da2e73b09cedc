//! Edge cases and behavioral pins across the variants: empty books, repeated
//! removals, stale events, tick collisions, and the bounded buffer's own API.

use ninjabook::event::Event;
use ninjabook::fixed_orderbook::Buffer;
use ninjabook::level::Level;

fn bid(price: u64, size: u64) -> Event {
    Event { timestamp: 0, seq: 0, is_trade: false, is_buy: true, price, size }
}

fn ask(price: u64, size: u64) -> Event {
    Event { timestamp: 0, seq: 0, is_trade: false, is_buy: false, price, size }
}

#[test]
fn empty_book_queries() {
    let fixed = ninjabook::fixed_orderbook::Orderbook::new();
    assert_eq!(fixed.best_bid(), None);
    assert_eq!(fixed.best_ask(), None);
    assert_eq!(fixed.top_bids(3), Vec::<Level>::new());
    assert_eq!(fixed.top_asks(3), Vec::<Level>::new());
    assert_eq!(fixed.midprice(), None);
    assert_eq!(fixed.weighted_midprice(), None);

    let naive = ninjabook::naive_orderbook::Orderbook::new();
    assert_eq!(naive.best_bid(), None);
    assert_eq!(naive.best_ask(), None);
    assert_eq!(naive.top_n_bids(3), Vec::<Level>::new());
    assert_eq!(naive.midprice(), None);

    let quantized = ninjabook::orderbook::Orderbook::new(100);
    assert_eq!(quantized.best_bid(), None);
    assert_eq!(quantized.top_asks(3), Vec::<Level>::new());
    assert_eq!(quantized.weighted_midprice(), None);
}

#[test]
fn removing_twice_equals_removing_once() {
    let mut once = ninjabook::fixed_orderbook::Orderbook::new();
    let mut twice = ninjabook::fixed_orderbook::Orderbook::new();
    for ob in [&mut once, &mut twice] {
        ob.process(bid(16, 1));
        ob.process(bid(10, 2));
        ob.process(bid(7, 1));
    }
    once.process(bid(10, 0));
    twice.process(bid(10, 0));
    twice.process(bid(10, 0));
    assert_eq!(once.top_bids(5), twice.top_bids(5));
    assert_eq!(once.best_bid(), twice.best_bid());

    let mut once = ninjabook::naive_orderbook::Orderbook::new();
    let mut twice = ninjabook::naive_orderbook::Orderbook::new();
    for ob in [&mut once, &mut twice] {
        ob.process(ask(9, 1));
        ob.process(ask(11, 2));
    }
    once.process(ask(9, 0));
    twice.process(ask(9, 0));
    twice.process(ask(9, 0));
    assert_eq!(once.top_n_asks(5), twice.top_n_asks(5));
    assert_eq!(once.best_ask(), twice.best_ask());
}

#[test]
fn stale_trade_is_discarded() {
    let mut ob = ninjabook::naive_orderbook::Orderbook::new();
    ob.process(Event { timestamp: 5, seq: 5, is_trade: false, is_buy: false, price: 11, size: 3 });

    // Stale on the sequence alone: the OR admission policy rejects it.
    ob.process(Event { timestamp: 6, seq: 4, is_trade: true, is_buy: false, price: 11, size: 3 });
    assert_eq!(ob.top_n_asks(1), vec![Level { price: 11, size: 3 }]);

    // Stale on the timestamp alone.
    ob.process(Event { timestamp: 4, seq: 6, is_trade: true, is_buy: false, price: 11, size: 3 });
    assert_eq!(ob.top_n_asks(1), vec![Level { price: 11, size: 3 }]);

    // Equal timestamp and sequence are admitted.
    ob.process(Event { timestamp: 5, seq: 5, is_trade: true, is_buy: false, price: 11, size: 1 });
    assert_eq!(ob.top_n_asks(1), vec![Level { price: 11, size: 2 }]);
}

#[test]
fn partial_trade_leaves_other_levels_untouched() {
    let mut ob = ninjabook::fixed_orderbook::Orderbook::new();
    ob.process(bid(16, 4));
    ob.process(bid(12, 7));
    ob.process(bid(10, 2));

    ob.process(Event { timestamp: 0, seq: 0, is_trade: true, is_buy: true, price: 12, size: 3 });
    assert_eq!(
        ob.top_bids(5),
        vec![
            Level { price: 16, size: 4 },
            Level { price: 12, size: 4 },
            Level { price: 10, size: 2 },
        ]
    );
}

#[test]
fn trade_exhausting_best_recomputes_best() {
    // A trade covering the whole best level removes it, and the best falls
    // back to the next level on that side, in every variant.
    let mut ob = ninjabook::fixed_orderbook::Orderbook::new();
    ob.process(ask(9, 2));
    ob.process(ask(10, 1));
    ob.process(Event { timestamp: 0, seq: 0, is_trade: true, is_buy: false, price: 9, size: 2 });
    assert_eq!(ob.best_ask(), Some(Level { price: 10, size: 1 }));

    let mut ob = ninjabook::naive_orderbook::Orderbook::new();
    ob.process(ask(9, 2));
    ob.process(ask(10, 1));
    ob.process(Event { timestamp: 0, seq: 0, is_trade: true, is_buy: false, price: 9, size: 2 });
    assert_eq!(ob.best_ask(), Some(Level { price: 10, size: 1 }));

    let mut ob = ninjabook::orderbook::Orderbook::new(1);
    ob.process(ask(9, 2));
    ob.process(ask(10, 1));
    ob.process(Event { timestamp: 0, seq: 0, is_trade: true, is_buy: false, price: 9, size: 2 });
    assert_eq!(ob.best_ask(), Some(Level { price: 10, size: 1 }));
}

#[test]
fn tick_collision_overwrites_size_and_keeps_stored_price() {
    // Two prices in the same 100-unit tick: the second update overwrites the
    // resting size but the stored level keeps the price that claimed the
    // tick, while the tracked best carries the newer price.
    let mut ob = ninjabook::orderbook::Orderbook::new(100);
    ob.process(bid(1640, 10));
    ob.process(bid(1660, 20));

    assert_eq!(ob.top_bids(2), vec![Level { price: 1640, size: 20 }]);
    assert_eq!(ob.best_bid(), Some(Level { price: 1660, size: 20 }));

    // Removing the tick clears the side and the tracked best.
    ob.process(bid(1620, 0));
    assert_eq!(ob.top_bids(2), Vec::<Level>::new());
    assert_eq!(ob.best_bid(), None);
}

#[test]
fn buffer_search_insert_remove() {
    let mut buf = Buffer::new();
    assert_eq!(buf.first(), None);
    assert_eq!(buf.find_index_bids(10), Err(0));

    // Bid order: descending prices, empty slots after every occupied one.
    buf.insert(0, Level { price: 12, size: 1 });
    buf.insert(1, Level { price: 8, size: 2 });
    buf.insert(1, Level { price: 10, size: 3 });

    assert_eq!(buf.first(), Some(Level { price: 12, size: 1 }));
    assert_eq!(buf.find_index_bids(12), Ok(0));
    assert_eq!(buf.find_index_bids(10), Ok(1));
    assert_eq!(buf.find_index_bids(8), Ok(2));
    assert_eq!(buf.find_index_bids(11), Err(1));
    assert_eq!(buf.find_index_bids(1), Err(3));
    assert_eq!(*buf.get(1), Level { price: 10, size: 3 });

    buf.modify(1, 9);
    assert_eq!(*buf.get(1), Level { price: 10, size: 9 });

    let removed = buf.remove(0);
    assert_eq!(removed, 12);
    assert_eq!(buf.first(), Some(Level { price: 10, size: 9 }));
    assert_eq!(buf.find_index_bids(8), Ok(1));
}

#[test]
fn buffer_ask_search() {
    let mut buf = Buffer::new();

    // Ask order: ascending prices.
    buf.insert(0, Level { price: 8, size: 1 });
    buf.insert(1, Level { price: 10, size: 1 });
    buf.insert(2, Level { price: 12, size: 1 });

    assert_eq!(buf.find_index_asks(8), Ok(0));
    assert_eq!(buf.find_index_asks(12), Ok(2));
    assert_eq!(buf.find_index_asks(9), Err(1));
    assert_eq!(buf.find_index_asks(50), Err(3));
}

#[test]
fn upsert_with_equal_price_replaces_in_place() {
    let mut ob = ninjabook::naive_orderbook::Orderbook::new();
    ob.process(bid(10, 1));
    ob.process(bid(10, 5));
    assert_eq!(ob.top_n_bids(3), vec![Level { price: 10, size: 5 }]);
    assert_eq!(ob.best_bid(), Some(Level { price: 10, size: 5 }));
}
