//! Tests driving the tick-quantized book through its raw, scalar-field
//! entry points: prices are in hundredth units and the tick size is 100.

use ninjabook::level::Level;
use ninjabook::orderbook::Orderbook;

#[test]
fn lib_process_lvl2_bids() {
    let mut ob = Orderbook::new(100);

    ob.process_raw(0, 0, false, true, 1600, 10);
    assert_eq!(ob.top_bids(5), vec![Level { price: 1600, size: 10 }]);

    ob.process_raw(0, 0, false, true, 700, 10);
    assert_eq!(
        ob.top_bids(5),
        vec![Level { price: 1600, size: 10 }, Level { price: 700, size: 10 }]
    );

    ob.process_raw(0, 0, false, true, 1000, 10);
    assert_eq!(
        ob.top_bids(5),
        vec![
            Level { price: 1600, size: 10 },
            Level { price: 1000, size: 10 },
            Level { price: 700, size: 10 },
        ]
    );

    ob.process_raw(0, 0, false, true, 800, 10);
    assert_eq!(
        ob.top_bids(5),
        vec![
            Level { price: 1600, size: 10 },
            Level { price: 1000, size: 10 },
            Level { price: 800, size: 10 },
            Level { price: 700, size: 10 },
        ]
    );

    ob.process_raw(0, 0, false, true, 800, 20);
    assert_eq!(
        ob.top_bids(5),
        vec![
            Level { price: 1600, size: 10 },
            Level { price: 1000, size: 10 },
            Level { price: 800, size: 20 },
            Level { price: 700, size: 10 },
        ]
    );

    ob.process_raw(0, 0, false, true, 1200, 10);
    assert_eq!(
        ob.top_bids(5),
        vec![
            Level { price: 1600, size: 10 },
            Level { price: 1200, size: 10 },
            Level { price: 1000, size: 10 },
            Level { price: 800, size: 20 },
            Level { price: 700, size: 10 },
        ]
    );

    ob.process_raw(0, 0, false, true, 2100, 10);
    assert_eq!(
        ob.top_bids(5),
        vec![
            Level { price: 2100, size: 10 },
            Level { price: 1600, size: 10 },
            Level { price: 1200, size: 10 },
            Level { price: 1000, size: 10 },
            Level { price: 800, size: 20 },
        ]
    );

    ob.process_raw(0, 0, false, true, 800, 0);
    assert_eq!(
        ob.top_bids(5),
        vec![
            Level { price: 2100, size: 10 },
            Level { price: 1600, size: 10 },
            Level { price: 1200, size: 10 },
            Level { price: 1000, size: 10 },
            Level { price: 700, size: 10 },
        ]
    );

    ob.process_raw(0, 0, false, true, 800, 100);
    assert_eq!(
        ob.top_bids(5),
        vec![
            Level { price: 2100, size: 10 },
            Level { price: 1600, size: 10 },
            Level { price: 1200, size: 10 },
            Level { price: 1000, size: 10 },
            Level { price: 800, size: 100 },
        ]
    );

    ob.process_raw(0, 0, false, true, 2100, 0);
    assert_eq!(
        ob.top_bids(5),
        vec![
            Level { price: 1600, size: 10 },
            Level { price: 1200, size: 10 },
            Level { price: 1000, size: 10 },
            Level { price: 800, size: 100 },
            Level { price: 700, size: 10 },
        ]
    );
}

#[test]
fn lib_process_lvl2_asks() {
    let mut ob = Orderbook::new(100);

    ob.process_raw(0, 0, false, false, 1600, 10);
    assert_eq!(ob.top_asks(5), vec![Level { price: 1600, size: 10 }]);

    ob.process_raw(0, 0, false, false, 700, 10);
    assert_eq!(
        ob.top_asks(5),
        vec![Level { price: 700, size: 10 }, Level { price: 1600, size: 10 }]
    );

    ob.process_raw(0, 0, false, false, 1000, 10);
    assert_eq!(
        ob.top_asks(5),
        vec![
            Level { price: 700, size: 10 },
            Level { price: 1000, size: 10 },
            Level { price: 1600, size: 10 },
        ]
    );

    ob.process_raw(0, 0, false, false, 600, 10);
    assert_eq!(
        ob.top_asks(5),
        vec![
            Level { price: 600, size: 10 },
            Level { price: 700, size: 10 },
            Level { price: 1000, size: 10 },
            Level { price: 1600, size: 10 },
        ]
    );

    ob.process_raw(0, 0, false, false, 800, 20);
    assert_eq!(
        ob.top_asks(5),
        vec![
            Level { price: 600, size: 10 },
            Level { price: 700, size: 10 },
            Level { price: 800, size: 20 },
            Level { price: 1000, size: 10 },
            Level { price: 1600, size: 10 },
        ]
    );

    ob.process_raw(0, 0, false, false, 5000, 10);
    assert_eq!(
        ob.top_asks(5),
        vec![
            Level { price: 600, size: 10 },
            Level { price: 700, size: 10 },
            Level { price: 800, size: 20 },
            Level { price: 1000, size: 10 },
            Level { price: 1600, size: 10 },
        ]
    );

    ob.process_raw(0, 0, false, false, 600, 0);
    assert_eq!(
        ob.top_asks(5),
        vec![
            Level { price: 700, size: 10 },
            Level { price: 800, size: 20 },
            Level { price: 1000, size: 10 },
            Level { price: 1600, size: 10 },
            Level { price: 5000, size: 10 },
        ]
    );

    ob.process_raw(0, 0, false, false, 800, 0);
    assert_eq!(
        ob.top_asks(5),
        vec![
            Level { price: 700, size: 10 },
            Level { price: 1000, size: 10 },
            Level { price: 1600, size: 10 },
            Level { price: 5000, size: 10 },
        ]
    );
}

#[test]
fn lib_process_all_asks() {
    let mut ob = Orderbook::new(100);

    ob.process_raw(0, 0, false, false, 1100, 100);
    ob.process_raw(0, 0, false, false, 1000, 100);
    ob.process_raw(0, 0, false, false, 900, 100);

    ob.process_raw(0, 0, true, false, 900, 50);
    assert_eq!(
        ob.top_asks(3),
        vec![
            Level { price: 900, size: 50 },
            Level { price: 1000, size: 100 },
            Level { price: 1100, size: 100 },
        ]
    );

    ob.process_raw(0, 0, true, false, 900, 90);
    assert_eq!(
        ob.top_asks(3),
        vec![Level { price: 1000, size: 100 }, Level { price: 1100, size: 100 }]
    );
}

#[test]
fn lib_old_event() {
    let mut ob = Orderbook::new(100);

    ob.process_raw(0, 0, false, false, 1100, 10);
    ob.process_raw(1, 0, false, false, 1000, 10);
    ob.process_raw(0, 0, false, false, 900, 10);
    ob.process_raw(0, 0, true, false, 800, 10);

    assert_eq!(ob.best_ask().unwrap(), Level { price: 1000, size: 10 });
}

#[test]
fn lib_process_stream_bbo() {
    let mut ob = Orderbook::new(100);

    ob.process_raw(0, 0, false, true, 1600, 10);
    ob.process_raw(0, 0, false, true, 2000, 10);
    ob.process_raw(0, 0, false, false, 2200, 10);

    let (best_bid, best_ask) = ob.process_stream_bbo_raw(0, 0, false, false, 2100, 10).unwrap();
    assert_eq!(best_bid.unwrap(), Level { price: 2000, size: 10 });
    assert_eq!(best_ask.unwrap(), Level { price: 2100, size: 10 });

    assert_eq!(ob.process_stream_bbo_raw(0, 0, false, false, 2300, 10), None);
}

#[test]
fn lib_remove_non_existing_level_with_trade() {
    let mut ob = Orderbook::new(100);

    ob.process_raw(0, 0, false, true, 1600, 10);
    ob.process_raw(0, 0, false, false, 2000, 10);
    ob.process_raw(0, 0, true, true, 1200, 10);
    ob.process_raw(0, 0, true, false, 2200, 10);

    assert_eq!(ob.best_bid().unwrap(), Level { price: 1600, size: 10 });
    assert_eq!(ob.best_ask().unwrap(), Level { price: 2000, size: 10 });
}

#[test]
fn lib_midprice() {
    let mut ob = Orderbook::new(100);

    ob.process_raw(0, 0, false, true, 1600, 10);
    assert_eq!(ob.midprice(), None);

    ob.process_raw(0, 0, false, false, 2000, 10);
    let midprice = ob.midprice().unwrap();
    assert_eq!(midprice.num as f64 / midprice.den as f64 / 100.0, 18.0);
}

#[test]
fn lib_weighted_midprice() {
    let mut ob = Orderbook::new(100);

    ob.process_raw(0, 0, false, true, 1600, 10);
    assert_eq!(ob.weighted_midprice(), None);

    ob.process_raw(0, 0, false, false, 2000, 40);
    let weighted_midprice = ob.weighted_midprice().unwrap();
    assert_eq!(weighted_midprice.num as f64 / weighted_midprice.den as f64 / 100.0, 16.8);
}
