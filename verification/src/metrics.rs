//! Derived pricing metrics, reported as exact rationals.

use vstd::prelude::*;

use crate::level::Level;

verus! {

/// An exact non-negative rational, as a numerator/denominator pair. The pair
/// is not reduced; two ratios describe the same value when they cross-multiply
/// equally.
#[derive(Clone, Copy, Debug, PartialEq, Eq, Structural)]
pub struct Ratio {
    pub num: u128,
    pub den: u128,
}

/// The midprice of a best bid/ask pair: the mean of the two prices.
pub open spec fn midprice_of(bid: Level, ask: Level) -> Ratio {
    Ratio { num: (bid.price + ask.price) as u128, den: 2 }
}

/// The size-weighted cross average of a best bid/ask pair:
/// `(bid.size * ask.price + bid.price * ask.size) / (bid.size + ask.size)`.
pub open spec fn weighted_midprice_of(bid: Level, ask: Level) -> Ratio {
    Ratio {
        num: (bid.size * ask.price + bid.price * ask.size) as u128,
        den: (bid.size + ask.size) as u128,
    }
}

/// Whether the weighted-midprice numerator of a best bid/ask pair fits the
/// result's integer width.
pub open spec fn weighted_midprice_fits(bid: Option<Level>, ask: Option<Level>) -> bool {
    bid is Some && ask is Some ==> {
        let b = bid.unwrap();
        let a = ask.unwrap();
        b.size * a.price + b.price * a.size <= u128::MAX
    }
}

/// The midprice of an optional best pair: present exactly when both sides
/// have a best level.
pub open spec fn midprice_opt(bid: Option<Level>, ask: Option<Level>) -> Option<Ratio> {
    match (bid, ask) {
        (Some(b), Some(a)) => Some(midprice_of(b, a)),
        _ => None,
    }
}

/// The weighted midprice of an optional best pair: present exactly when both
/// sides have a best level.
pub open spec fn weighted_midprice_opt(bid: Option<Level>, ask: Option<Level>) -> Option<Ratio> {
    match (bid, ask) {
        (Some(b), Some(a)) => Some(weighted_midprice_of(b, a)),
        _ => None,
    }
}

/// `(bid.price + ask.price) / 2` when both sides have a best level, else absent.
pub fn midprice_from_best(bid: &Option<Level>, ask: &Option<Level>) -> (r: Option<Ratio>)
    ensures
        r == midprice_opt(*bid, *ask),
{
    match (bid, ask) {
        (Some(b), Some(a)) => Some(Ratio { num: b.price as u128 + a.price as u128, den: 2 }),
        _ => None,
    }
}

/// The size-weighted cross average when both sides have a best level, else
/// absent.
pub fn weighted_midprice_from_best(bid: &Option<Level>, ask: &Option<Level>) -> (r: Option<
    Ratio,
>)
    requires
        weighted_midprice_fits(*bid, *ask),
    ensures
        r == weighted_midprice_opt(*bid, *ask),
{
    match (bid, ask) {
        (Some(b), Some(a)) => {
            let num = (b.size as u128) * (a.price as u128) + (b.price as u128) * (a.size as u128);
            let den = b.size as u128 + a.size as u128;
            Some(Ratio { num, den })
        },
        _ => None,
    }
}

} // verus!
