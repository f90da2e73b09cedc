//! Tests for the tick-quantized order book variant: prices are in
//! hundredth units and the tick size is 100 of them.

use ninjabook::event::Event;
use ninjabook::orderbook::Orderbook;
use ninjabook::level::Level;

fn depth_event(price: u64, size: u64) -> Event {
    Event { timestamp: 0, seq: 0, is_trade: false, is_buy: true, price, size }
}

fn ask_event(price: u64, size: u64) -> Event {
    Event { timestamp: 0, seq: 0, is_trade: false, is_buy: false, price, size }
}

#[test]
fn orderbook_process_lvl2_bids() {
    let mut ob = Orderbook::new(100);

    ob.process(depth_event(1600, 10));
    assert_eq!(ob.top_bids(5), vec![Level { price: 1600, size: 10 }]);

    ob.process(depth_event(700, 10));
    assert_eq!(
        ob.top_bids(5),
        vec![Level { price: 1600, size: 10 }, Level { price: 700, size: 10 }]
    );

    ob.process(depth_event(1000, 10));
    assert_eq!(
        ob.top_bids(5),
        vec![
            Level { price: 1600, size: 10 },
            Level { price: 1000, size: 10 },
            Level { price: 700, size: 10 },
        ]
    );

    ob.process(depth_event(800, 10));
    assert_eq!(
        ob.top_bids(5),
        vec![
            Level { price: 1600, size: 10 },
            Level { price: 1000, size: 10 },
            Level { price: 800, size: 10 },
            Level { price: 700, size: 10 },
        ]
    );

    ob.process(depth_event(800, 20));
    assert_eq!(
        ob.top_bids(5),
        vec![
            Level { price: 1600, size: 10 },
            Level { price: 1000, size: 10 },
            Level { price: 800, size: 20 },
            Level { price: 700, size: 10 },
        ]
    );

    ob.process(depth_event(1200, 10));
    assert_eq!(
        ob.top_bids(5),
        vec![
            Level { price: 1600, size: 10 },
            Level { price: 1200, size: 10 },
            Level { price: 1000, size: 10 },
            Level { price: 800, size: 20 },
            Level { price: 700, size: 10 },
        ]
    );

    ob.process(depth_event(2100, 10));
    assert_eq!(
        ob.top_bids(5),
        vec![
            Level { price: 2100, size: 10 },
            Level { price: 1600, size: 10 },
            Level { price: 1200, size: 10 },
            Level { price: 1000, size: 10 },
            Level { price: 800, size: 20 },
        ]
    );

    ob.process(depth_event(800, 0));
    assert_eq!(
        ob.top_bids(5),
        vec![
            Level { price: 2100, size: 10 },
            Level { price: 1600, size: 10 },
            Level { price: 1200, size: 10 },
            Level { price: 1000, size: 10 },
            Level { price: 700, size: 10 },
        ]
    );

    ob.process(depth_event(800, 100));
    assert_eq!(
        ob.top_bids(5),
        vec![
            Level { price: 2100, size: 10 },
            Level { price: 1600, size: 10 },
            Level { price: 1200, size: 10 },
            Level { price: 1000, size: 10 },
            Level { price: 800, size: 100 },
        ]
    );

    ob.process(depth_event(2100, 0));
    assert_eq!(
        ob.top_bids(5),
        vec![
            Level { price: 1600, size: 10 },
            Level { price: 1200, size: 10 },
            Level { price: 1000, size: 10 },
            Level { price: 800, size: 100 },
            Level { price: 700, size: 10 },
        ]
    );
}

#[test]
fn orderbook_process_lvl2_asks() {
    let mut ob = Orderbook::new(100);

    ob.process(ask_event(1600, 10));
    assert_eq!(ob.top_asks(5), vec![Level { price: 1600, size: 10 }]);

    ob.process(ask_event(700, 10));
    assert_eq!(
        ob.top_asks(5),
        vec![Level { price: 700, size: 10 }, Level { price: 1600, size: 10 }]
    );

    ob.process(ask_event(1000, 10));
    assert_eq!(
        ob.top_asks(5),
        vec![
            Level { price: 700, size: 10 },
            Level { price: 1000, size: 10 },
            Level { price: 1600, size: 10 },
        ]
    );

    ob.process(ask_event(600, 10));
    assert_eq!(
        ob.top_asks(5),
        vec![
            Level { price: 600, size: 10 },
            Level { price: 700, size: 10 },
            Level { price: 1000, size: 10 },
            Level { price: 1600, size: 10 },
        ]
    );

    ob.process(ask_event(800, 20));
    assert_eq!(
        ob.top_asks(5),
        vec![
            Level { price: 600, size: 10 },
            Level { price: 700, size: 10 },
            Level { price: 800, size: 20 },
            Level { price: 1000, size: 10 },
            Level { price: 1600, size: 10 },
        ]
    );

    ob.process(ask_event(5000, 10));
    assert_eq!(
        ob.top_asks(5),
        vec![
            Level { price: 600, size: 10 },
            Level { price: 700, size: 10 },
            Level { price: 800, size: 20 },
            Level { price: 1000, size: 10 },
            Level { price: 1600, size: 10 },
        ]
    );

    ob.process(ask_event(600, 0));
    assert_eq!(
        ob.top_asks(5),
        vec![
            Level { price: 700, size: 10 },
            Level { price: 800, size: 20 },
            Level { price: 1000, size: 10 },
            Level { price: 1600, size: 10 },
            Level { price: 5000, size: 10 },
        ]
    );

    ob.process(ask_event(800, 0));
    assert_eq!(
        ob.top_asks(5),
        vec![
            Level { price: 700, size: 10 },
            Level { price: 1000, size: 10 },
            Level { price: 1600, size: 10 },
            Level { price: 5000, size: 10 },
        ]
    );
}

#[test]
fn orderbook_process_all_asks() {
    let mut ob = Orderbook::new(100);

    ob.process(ask_event(1100, 100));
    ob.process(ask_event(1000, 100));
    ob.process(ask_event(900, 100));

    ob.process(Event { timestamp: 0, seq: 0, is_trade: true, is_buy: false, price: 900, size: 50 });
    assert_eq!(
        ob.top_asks(3),
        vec![
            Level { price: 900, size: 50 },
            Level { price: 1000, size: 100 },
            Level { price: 1100, size: 100 },
        ]
    );

    ob.process(Event { timestamp: 0, seq: 0, is_trade: true, is_buy: false, price: 900, size: 90 });
    assert_eq!(
        ob.top_asks(3),
        vec![Level { price: 1000, size: 100 }, Level { price: 1100, size: 100 }]
    );
}

#[test]
fn orderbook_old_event() {
    let mut ob = Orderbook::new(100);

    ob.process(Event { timestamp: 0, seq: 0, is_trade: false, is_buy: false, price: 1100, size: 10 });
    ob.process(Event { timestamp: 1, seq: 0, is_trade: false, is_buy: false, price: 1000, size: 10 });
    ob.process(Event { timestamp: 0, seq: 0, is_trade: false, is_buy: false, price: 900, size: 10 });
    ob.process(Event { timestamp: 0, seq: 0, is_trade: true, is_buy: false, price: 800, size: 10 });

    assert_eq!(ob.best_ask().unwrap(), Level { price: 1000, size: 10 });
}

#[test]
fn orderbook_process_stream_bbo() {
    let mut ob = Orderbook::new(100);

    ob.process(depth_event(1600, 10));
    ob.process(depth_event(2000, 10));
    ob.process(ask_event(2200, 10));

    let (best_bid, best_ask) = ob.process_stream_bbo(ask_event(2100, 10)).unwrap();
    assert_eq!(best_bid.unwrap(), Level { price: 2000, size: 10 });
    assert_eq!(best_ask.unwrap(), Level { price: 2100, size: 10 });

    assert_eq!(ob.process_stream_bbo(ask_event(2300, 10)), None);
}

#[test]
fn orderbook_remove_non_existing_level_with_trade() {
    let mut ob = Orderbook::new(100);

    ob.process(depth_event(1600, 10));
    ob.process(ask_event(2000, 10));
    ob.process(Event { timestamp: 0, seq: 0, is_trade: true, is_buy: true, price: 1200, size: 10 });
    ob.process(Event { timestamp: 0, seq: 0, is_trade: true, is_buy: false, price: 2200, size: 10 });

    assert_eq!(ob.best_bid().unwrap(), Level { price: 1600, size: 10 });
    assert_eq!(ob.best_ask().unwrap(), Level { price: 2000, size: 10 });
}

#[test]
fn orderbook_midprice() {
    let mut ob = Orderbook::new(100);

    ob.process(depth_event(1600, 10));
    assert_eq!(ob.midprice(), None);

    ob.process(ask_event(2000, 10));
    let midprice = ob.midprice().unwrap();
    assert_eq!(midprice.num as f64 / midprice.den as f64 / 100.0, 18.0);
}

#[test]
fn orderbook_weighted_midprice() {
    let mut ob = Orderbook::new(100);

    ob.process(depth_event(1600, 10));
    assert_eq!(ob.weighted_midprice(), None);

    ob.process(ask_event(2000, 40));
    let weighted_midprice = ob.weighted_midprice().unwrap();
    assert_eq!(weighted_midprice.num as f64 / weighted_midprice.den as f64 / 100.0, 16.8);
}
