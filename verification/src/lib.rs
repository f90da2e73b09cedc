//! Incremental limit order book: replays a sequenced stream of depth updates
//! and trade executions, and answers best-of-book and depth queries.
//!
//! Three interchangeable engines keep one side's resting levels ordered
//! best-to-worst behind the same event contract: [`orderbook`] keys levels by
//! a quantized integer tick, [`naive_orderbook`] scans an unbounded vector,
//! and [`fixed_orderbook`] keeps a capacity-bounded buffer of tagged slots
//! searched by binary search. Every engine admits events through one
//! monotonicity policy: an event older than the book on its timestamp or its
//! sequence number is silently discarded.

pub mod depth;
pub mod event;
pub mod fixed_orderbook;
pub mod level;
pub mod metrics;
pub mod naive_orderbook;
pub mod orderbook;
