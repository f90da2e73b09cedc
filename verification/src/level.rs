//! A price level: the resting quantity at one price, in integer base units.

use vstd::prelude::*;

verus! {

/// One resting price level. Prices and sizes are integer counts of the
/// feed's base units (a fixed fraction of currency / quantity).
#[derive(Clone, Copy, Debug, PartialEq, Eq, Structural, PartialOrd, Ord)]
pub struct Level {
    pub price: u64,
    pub size: u64,
}

impl Level {
    pub fn new(price: u64, size: u64) -> (r: Self)
        ensures
            r == (Level { price, size }),
    {
        Self { price, size }
    }

    /// A level whose price sorts before every real price.
    pub fn minimum() -> (r: Self)
        ensures
            r == (Level { price: 0u64, size: 0u64 }),
    {
        Self { price: 0, size: 0 }
    }

    /// A level whose price sorts after every real price.
    pub fn maximum() -> (r: Self)
        ensures
            r == (Level { price: u64::MAX, size: 0u64 }),
    {
        Self { price: u64::MAX, size: 0 }
    }
}

/// Whether two optional levels are structurally equal.
pub fn opt_level_eq(a: &Option<Level>, b: &Option<Level>) -> (r: bool)
    ensures
        r == (a == b),
{
    match (a, b) {
        (None, None) => true,
        (Some(x), Some(y)) => x.price == y.price && x.size == y.size,
        _ => false,
    }
}

} // verus!
