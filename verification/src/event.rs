//! One market-data message: a depth update or a trade execution.

use vstd::prelude::*;

use crate::level::Level;

verus! {

/// One market-data message. `is_trade` selects trade execution over depth
/// update; `is_buy` selects the bid side over the ask side. A depth update
/// with `size == 0` removes the level at `price`. Prices and sizes are
/// integer counts of the feed's base units.
#[derive(Clone, Copy, Debug, PartialEq, Eq, Structural)]
pub struct Event {
    pub timestamp: u64,
    pub seq: u64,
    pub is_trade: bool,
    pub is_buy: bool,
    pub price: u64,
    pub size: u64,
}

impl Event {
    /// The integer tick key used by the tick-quantized book: the price
    /// divided (rounding down) by the tick size.
    pub fn price_ticks(&self, tick_size: u64) -> (r: u64)
        requires
            tick_size > 0,
        ensures
            r == self.price / tick_size,
    {
        self.price / tick_size
    }
}

/// The admission policy: an event is discarded, as a silent no-op, when its
/// timestamp is older than the book's `last_updated` or its sequence number is
/// older than the book's `last_sequence`. Every book variant applies this one
/// rule.
pub open spec fn is_stale(e: Event, last_updated: u64, last_sequence: u64) -> bool {
    e.timestamp < last_updated || e.seq < last_sequence
}

impl From<Event> for Level {
    /// The level a depth update describes: its price and size fields.
    fn from(value: Event) -> (r: Self) {
        Level { price: value.price, size: value.size }
    }
}

impl vstd::std_specs::convert::FromSpecImpl<Event> for Level {
    open spec fn obeys_from_spec() -> bool {
        true
    }

    open spec fn from_spec(value: Event) -> Self {
        Level { price: value.price, size: value.size }
    }
}

} // verus!
