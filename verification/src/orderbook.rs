//! The tick-quantized order book: each side's levels are keyed by an integer
//! tick — the price divided by the book's tick size — and kept strictly
//! ordered by tick, best-first. An upsert at an occupied tick overwrites the
//! resting size but keeps the stored price, so a stored level always carries
//! the price that first claimed its tick. Best levels are tracked
//! incrementally, and removal or exhaustion is matched at tick granularity,
//! the store's own notion of price identity.

use vstd::prelude::*;

use crate::depth::{better, depth_wf, first_opt, top_levels};
use crate::event::{is_stale, Event};
use crate::level::{opt_level_eq, Level};
use crate::metrics::{
    midprice_from_best, midprice_opt, weighted_midprice_fits, weighted_midprice_from_best,
    weighted_midprice_opt, Ratio,
};

verus! {

/// The tick a price falls in: the price divided (rounding down) by the tick
/// size.
pub open spec fn tick_of(price: u64, tick_size: u64) -> u64 {
    price / tick_size
}

/// A side keyed by ticks is well formed when its levels are strictly ordered
/// best-to-worst by tick (so ticks are distinct) and every resting size is
/// positive.
pub open spec fn tick_wf(s: Seq<Level>, t: u64, is_bid: bool) -> bool {
    &&& forall|i: int, j: int|
        0 <= i < j < s.len() ==> better(
            tick_of(#[trigger] s[i].price, t),
            tick_of(#[trigger] s[j].price, t),
            is_bid,
        )
    &&& forall|i: int| 0 <= i < s.len() ==> (#[trigger] s[i]).size > 0
}

/// Whether some level rests in tick `k`.
pub open spec fn has_tick(s: Seq<Level>, k: u64, t: u64) -> bool {
    exists|i: int| 0 <= i < s.len() && tick_of((#[trigger] s[i]).price, t) == k
}

/// The size resting in tick `k`: that of the first level in this tick.
pub open spec fn size_at_tick(s: Seq<Level>, k: u64, t: u64) -> u64
    decreases s.len(),
{
    if s.len() == 0 {
        0
    } else if tick_of(s[0].price, t) == k {
        s[0].size
    } else {
        size_at_tick(s.drop_first(), k, t)
    }
}

/// The number of leading levels in strictly better ticks than `k`: the
/// position where tick `k` rests or would be inserted.
pub open spec fn tick_boundary(s: Seq<Level>, k: u64, t: u64, is_bid: bool) -> int
    decreases s.len(),
{
    if s.len() == 0 {
        0
    } else if better(tick_of(s[0].price, t), k, is_bid) {
        1 + tick_boundary(s.drop_first(), k, t, is_bid)
    } else {
        0
    }
}

/// A depth update's upsert: overwrite the resting size at the event's tick —
/// keeping the price already stored there — or insert the event's level at
/// its ordered position.
pub open spec fn upsert_tick(s: Seq<Level>, e: Event, t: u64, is_bid: bool) -> Seq<Level>
    decreases s.len(),
{
    let k = tick_of(e.price, t);
    if s.len() == 0 {
        seq![Level { price: e.price, size: e.size }]
    } else if better(tick_of(s[0].price, t), k, is_bid) {
        seq![s[0]] + upsert_tick(s.drop_first(), e, t, is_bid)
    } else if tick_of(s[0].price, t) == k {
        seq![Level { price: s[0].price, size: e.size }] + s.drop_first()
    } else {
        seq![Level { price: e.price, size: e.size }] + s
    }
}

/// Remove the level in tick `k`; a no-op when no level rests there.
pub open spec fn remove_tick(s: Seq<Level>, k: u64, t: u64) -> Seq<Level>
    decreases s.len(),
{
    if s.len() == 0 {
        s
    } else if tick_of(s[0].price, t) == k {
        s.drop_first()
    } else {
        seq![s[0]] + remove_tick(s.drop_first(), k, t)
    }
}

/// Apply a trade of `sz` against the level in tick `k`: a no-op when absent;
/// else remove the level when `sz` covers its size, else reduce it in place.
pub open spec fn trade_tick(s: Seq<Level>, k: u64, sz: u64, t: u64) -> Seq<Level>
    decreases s.len(),
{
    if s.len() == 0 {
        s
    } else if tick_of(s[0].price, t) == k {
        if sz >= s[0].size {
            s.drop_first()
        } else {
            seq![Level { price: s[0].price, size: (s[0].size - sz) as u64 }] + s.drop_first()
        }
    } else {
        seq![s[0]] + trade_tick(s.drop_first(), k, sz, t)
    }
}

/// Whether a trade of `sz` in tick `k` exhausts (removes) a resting level.
pub open spec fn tick_trade_exhausts(s: Seq<Level>, k: u64, sz: u64, t: u64) -> bool {
    has_tick(s, k, t) && sz >= size_at_tick(s, k, t)
}

/// A strict tick order is also a strict price order: division by the tick
/// size is monotone, so distinct ticks separate prices the same way.
pub proof fn lemma_tick_wf_depth_wf(s: Seq<Level>, t: u64, is_bid: bool)
    requires
        tick_wf(s, t, is_bid),
        t >= 1,
    ensures
        depth_wf(s, is_bid),
{
    assert forall|i: int, j: int| 0 <= i < j < s.len() implies better(
        (#[trigger] s[i]).price,
        (#[trigger] s[j]).price,
        is_bid,
    ) by {
        if is_bid {
            if s[i].price <= s[j].price {
                vstd::arithmetic::div_mod::lemma_div_is_ordered(
                    s[i].price as int,
                    s[j].price as int,
                    t as int,
                );
            }
        } else {
            if s[j].price <= s[i].price {
                vstd::arithmetic::div_mod::lemma_div_is_ordered(
                    s[j].price as int,
                    s[i].price as int,
                    t as int,
                );
            }
        }
    }
}

/// In a well-formed side, at most one level rests in each tick.
pub proof fn lemma_tick_index_unique(s: Seq<Level>, t: u64, is_bid: bool, i: int, j: int)
    requires
        tick_wf(s, t, is_bid),
        0 <= i < s.len(),
        0 <= j < s.len(),
        tick_of(s[i].price, t) == tick_of(s[j].price, t),
    ensures
        i == j,
{
}

/// The tick boundary splits the strictly better ticks from the rest.
pub proof fn lemma_tick_boundary(s: Seq<Level>, k: u64, t: u64, is_bid: bool)
    requires
        tick_wf(s, t, is_bid),
    ensures
        0 <= tick_boundary(s, k, t, is_bid) <= s.len(),
        forall|j: int|
            0 <= j < tick_boundary(s, k, t, is_bid) ==> better(
                tick_of((#[trigger] s[j]).price, t),
                k,
                is_bid,
            ),
        tick_boundary(s, k, t, is_bid) < s.len() ==> !better(
            tick_of(s[tick_boundary(s, k, t, is_bid)].price, t),
            k,
            is_bid,
        ),
    decreases s.len(),
{
    if s.len() > 0 && better(tick_of(s[0].price, t), k, is_bid) {
        let u = s.drop_first();
        assert(tick_wf(u, t, is_bid)) by {
            assert(forall|i: int, j: int|
                0 <= i < j < u.len() ==> better(
                    tick_of(#[trigger] u[i].price, t),
                    tick_of(#[trigger] u[j].price, t),
                    is_bid,
                ));
        }
        lemma_tick_boundary(u, k, t, is_bid);
        assert forall|j: int| 0 <= j < tick_boundary(s, k, t, is_bid) implies better(
            tick_of((#[trigger] s[j]).price, t),
            k,
            is_bid,
        ) by {
            if j > 0 {
                assert(s[j] == u[j - 1]);
            }
        }
    }
}

/// The tick boundary is the unique index splitting the strictly better ticks
/// from the rest.
pub proof fn lemma_tick_boundary_unique(s: Seq<Level>, k: u64, t: u64, is_bid: bool, i: int)
    requires
        tick_wf(s, t, is_bid),
        0 <= i <= s.len(),
        forall|j: int| 0 <= j < i ==> better(tick_of((#[trigger] s[j]).price, t), k, is_bid),
        i < s.len() ==> !better(tick_of(s[i].price, t), k, is_bid),
    ensures
        i == tick_boundary(s, k, t, is_bid),
{
    lemma_tick_boundary(s, k, t, is_bid);
    let b = tick_boundary(s, k, t, is_bid);
    if i < b {
        assert(better(tick_of(s[i].price, t), k, is_bid));
    }
    if b < i {
        assert(better(tick_of(s[b].price, t), k, is_bid));
        assert(!better(tick_of(s[b].price, t), k, is_bid));
    }
}

/// When the level at the tick boundary (if any) is not in tick `k`, no level
/// is.
pub proof fn lemma_tick_absent_at_boundary(s: Seq<Level>, k: u64, t: u64, is_bid: bool, i: int)
    requires
        tick_wf(s, t, is_bid),
        i == tick_boundary(s, k, t, is_bid),
        i < s.len() ==> tick_of(s[i].price, t) != k,
    ensures
        !has_tick(s, k, t),
{
    lemma_tick_boundary(s, k, t, is_bid);
    assert forall|j: int| 0 <= j < s.len() implies tick_of((#[trigger] s[j]).price, t) != k by {
        if j > i {
            assert(better(tick_of(s[i].price, t), tick_of(s[j].price, t), is_bid));
            assert(!better(tick_of(s[i].price, t), k, is_bid));
        }
    }
}

/// Upserting into an occupied tick at index `i` overwrites that index's size.
pub proof fn lemma_upsert_tick_overwrite(s: Seq<Level>, e: Event, t: u64, is_bid: bool, i: int)
    requires
        0 <= i < s.len(),
        tick_of(s[i].price, t) == tick_of(e.price, t),
        forall|j: int|
            0 <= j < i ==> better(tick_of((#[trigger] s[j]).price, t), tick_of(e.price, t), is_bid),
    ensures
        upsert_tick(s, e, t, is_bid) == s.update(
            i,
            Level { price: s[i].price, size: e.size },
        ),
    decreases s.len(),
{
    if i == 0 {
        assert(upsert_tick(s, e, t, is_bid) =~= s.update(
            0,
            Level { price: s[0].price, size: e.size },
        ));
    } else {
        lemma_upsert_tick_overwrite(s.drop_first(), e, t, is_bid, i - 1);
        assert(upsert_tick(s, e, t, is_bid) =~= s.update(
            i,
            Level { price: s[i].price, size: e.size },
        ));
    }
}

/// Upserting into an unoccupied tick inserts the event's level at index `i`,
/// the boundary between strictly better and strictly worse ticks.
pub proof fn lemma_upsert_tick_insert(s: Seq<Level>, e: Event, t: u64, is_bid: bool, i: int)
    requires
        0 <= i <= s.len(),
        forall|j: int|
            0 <= j < i ==> better(tick_of((#[trigger] s[j]).price, t), tick_of(e.price, t), is_bid),
        i < s.len() ==> better(tick_of(e.price, t), tick_of(s[i].price, t), is_bid),
    ensures
        upsert_tick(s, e, t, is_bid) == s.insert(i, Level { price: e.price, size: e.size }),
    decreases s.len(),
{
    if i == 0 {
        if s.len() == 0 {
            assert(upsert_tick(s, e, t, is_bid) =~= s.insert(
                0,
                Level { price: e.price, size: e.size },
            ));
        } else {
            assert(upsert_tick(s, e, t, is_bid) =~= s.insert(
                0,
                Level { price: e.price, size: e.size },
            ));
        }
    } else {
        lemma_upsert_tick_insert(s.drop_first(), e, t, is_bid, i - 1);
        assert(upsert_tick(s, e, t, is_bid) =~= s.insert(
            i,
            Level { price: e.price, size: e.size },
        ));
    }
}

/// Removing a tick that rests first at index `i` removes exactly that index.
pub proof fn lemma_remove_tick_at(s: Seq<Level>, k: u64, t: u64, i: int)
    requires
        0 <= i < s.len(),
        tick_of(s[i].price, t) == k,
        forall|j: int| 0 <= j < i ==> tick_of((#[trigger] s[j]).price, t) != k,
    ensures
        remove_tick(s, k, t) == s.remove(i),
        has_tick(s, k, t),
    decreases s.len(),
{
    if i == 0 {
        assert(remove_tick(s, k, t) =~= s.remove(0));
    } else {
        lemma_remove_tick_at(s.drop_first(), k, t, i - 1);
        assert(remove_tick(s, k, t) =~= s.remove(i));
    }
}

/// Removing an unoccupied tick changes nothing.
pub proof fn lemma_remove_tick_absent(s: Seq<Level>, k: u64, t: u64)
    requires
        !has_tick(s, k, t),
    ensures
        remove_tick(s, k, t) == s,
    decreases s.len(),
{
    if s.len() > 0 {
        assert(tick_of(s[0].price, t) != k);
        assert(!has_tick(s.drop_first(), k, t)) by {
            if has_tick(s.drop_first(), k, t) {
                let i = choose|i: int|
                    0 <= i < s.drop_first().len() && tick_of(
                        (#[trigger] s.drop_first()[i]).price,
                        t,
                    ) == k;
                assert(tick_of(s[i + 1].price, t) == k);
            }
        }
        lemma_remove_tick_absent(s.drop_first(), k, t);
        assert(remove_tick(s, k, t) =~= s);
    } else {
        assert(remove_tick(s, k, t) =~= s);
    }
}

/// A trade against the tick resting first at index `i` removes that index
/// when its size is covered, and otherwise reduces that index in place.
pub proof fn lemma_trade_tick_at(s: Seq<Level>, k: u64, sz: u64, t: u64, i: int)
    requires
        0 <= i < s.len(),
        tick_of(s[i].price, t) == k,
        forall|j: int| 0 <= j < i ==> tick_of((#[trigger] s[j]).price, t) != k,
    ensures
        has_tick(s, k, t),
        size_at_tick(s, k, t) == s[i].size,
        sz >= s[i].size ==> trade_tick(s, k, sz, t) == s.remove(i),
        sz < s[i].size ==> trade_tick(s, k, sz, t) == s.update(
            i,
            Level { price: s[i].price, size: (s[i].size - sz) as u64 },
        ),
    decreases s.len(),
{
    if i == 0 {
        if sz >= s[0].size {
            assert(trade_tick(s, k, sz, t) =~= s.remove(0));
        } else {
            assert(trade_tick(s, k, sz, t) =~= s.update(
                0,
                Level { price: s[0].price, size: (s[0].size - sz) as u64 },
            ));
        }
    } else {
        lemma_trade_tick_at(s.drop_first(), k, sz, t, i - 1);
        if sz >= s[i].size {
            assert(trade_tick(s, k, sz, t) =~= s.remove(i));
        } else {
            assert(trade_tick(s, k, sz, t) =~= s.update(
                i,
                Level { price: s[i].price, size: (s[i].size - sz) as u64 },
            ));
        }
    }
}

/// A trade in an unoccupied tick changes nothing.
pub proof fn lemma_trade_tick_absent(s: Seq<Level>, k: u64, sz: u64, t: u64)
    requires
        !has_tick(s, k, t),
    ensures
        trade_tick(s, k, sz, t) == s,
        !tick_trade_exhausts(s, k, sz, t),
    decreases s.len(),
{
    if s.len() > 0 {
        assert(tick_of(s[0].price, t) != k);
        assert(!has_tick(s.drop_first(), k, t)) by {
            if has_tick(s.drop_first(), k, t) {
                let i = choose|i: int|
                    0 <= i < s.drop_first().len() && tick_of(
                        (#[trigger] s.drop_first()[i]).price,
                        t,
                    ) == k;
                assert(tick_of(s[i + 1].price, t) == k);
            }
        }
        lemma_trade_tick_absent(s.drop_first(), k, sz, t);
        assert(trade_tick(s, k, sz, t) =~= s);
    } else {
        assert(trade_tick(s, k, sz, t) =~= s);
    }
}

/// After a removal, no level rests in the removed tick.
pub proof fn lemma_remove_tick_gone(s: Seq<Level>, k: u64, t: u64, is_bid: bool)
    requires
        tick_wf(s, t, is_bid),
    ensures
        !has_tick(remove_tick(s, k, t), k, t),
{
    if has_tick(s, k, t) {
        let i = choose|i: int| 0 <= i < s.len() && tick_of((#[trigger] s[i]).price, t) == k;
        assert forall|j: int| 0 <= j < i implies tick_of((#[trigger] s[j]).price, t) != k by {
            if tick_of(s[j].price, t) == k {
                lemma_tick_index_unique(s, t, is_bid, i, j);
            }
        }
        lemma_remove_tick_at(s, k, t, i);
        s.remove_ensures(i);
        let u = s.remove(i);
        assert forall|j: int| 0 <= j < u.len() implies tick_of((#[trigger] u[j]).price, t) != k by {
            if j < i {
                if tick_of(s[j].price, t) == k {
                    lemma_tick_index_unique(s, t, is_bid, i, j);
                }
            } else {
                if tick_of(s[j + 1].price, t) == k {
                    lemma_tick_index_unique(s, t, is_bid, i, j + 1);
                }
            }
        }
    } else {
        lemma_remove_tick_absent(s, k, t);
    }
}

/// Inserting a positive-size level at the boundary between strictly better
/// and strictly worse ticks keeps a side well formed.
pub proof fn lemma_tick_wf_insert(s: Seq<Level>, lvl: Level, t: u64, is_bid: bool, i: int)
    requires
        tick_wf(s, t, is_bid),
        lvl.size > 0,
        0 <= i <= s.len(),
        forall|j: int|
            0 <= j < i ==> better(tick_of((#[trigger] s[j]).price, t), tick_of(lvl.price, t), is_bid),
        i < s.len() ==> better(tick_of(lvl.price, t), tick_of(s[i].price, t), is_bid),
    ensures
        tick_wf(s.insert(i, lvl), t, is_bid),
{
    s.insert_ensures(i, lvl);
    let u = s.insert(i, lvl);
    assert forall|a: int, b: int| 0 <= a < b < u.len() implies better(
        tick_of(#[trigger] u[a].price, t),
        tick_of(#[trigger] u[b].price, t),
        is_bid,
    ) by {
        if a < i && b > i {
            assert(u[a] == s[a]);
            assert(u[b] == s[b - 1]);
            if i < s.len() {
                assert(better(
                    tick_of(s[i].price, t),
                    tick_of(s[b - 1].price, t),
                    is_bid,
                ) || i == b - 1);
            }
        }
    }
    assert forall|a: int| 0 <= a < u.len() implies (#[trigger] u[a]).size > 0 by {
        if a < i {
            assert(u[a] == s[a]);
        } else if a > i {
            assert(u[a] == s[a - 1]);
        }
    }
}

/// Overwriting one level with another in the same tick and positive size
/// keeps a side well formed.
pub proof fn lemma_tick_wf_update(s: Seq<Level>, lvl: Level, t: u64, is_bid: bool, i: int)
    requires
        tick_wf(s, t, is_bid),
        lvl.size > 0,
        0 <= i < s.len(),
        tick_of(s[i].price, t) == tick_of(lvl.price, t),
    ensures
        tick_wf(s.update(i, lvl), t, is_bid),
{
}

/// The mathematical state of the tick-quantized book: each side's depth
/// best-first, the tracked best levels, the admission clock, and the tick
/// size.
#[verifier::ext_equal]
pub struct BookView {
    pub best_bid: Option<Level>,
    pub best_ask: Option<Level>,
    pub bids: Seq<Level>,
    pub asks: Seq<Level>,
    pub last_updated: u64,
    pub last_sequence: u64,
    pub tick_size: u64,
}

/// One side and its tracked best are consistent when the side is well formed,
/// the best is present exactly when the side is non-empty, and the tracked
/// best rests in the side's best tick. (After an upsert into an occupied
/// tick, or a partial trade against the best level, the tracked best's exact
/// price or size may differ from the stored level's; the tick never does.)
pub open spec fn side_ok(s: Seq<Level>, best: Option<Level>, t: u64, is_bid: bool) -> bool {
    &&& tick_wf(s, t, is_bid)
    &&& (best is None <==> s.len() == 0)
    &&& (best is Some ==> tick_of(best.unwrap().price, t) == tick_of(s[0].price, t)
        && best.unwrap().size > 0)
}

/// The book invariant: a positive tick size, and both sides consistent with
/// their tracked bests.
pub open spec fn book_wf(v: BookView) -> bool {
    &&& v.tick_size >= 1
    &&& side_ok(v.bids, v.best_bid, v.tick_size, true)
    &&& side_ok(v.asks, v.best_ask, v.tick_size, false)
}

/// One side's depth update. `size == 0` removes the level at the event's
/// tick if present (recomputing the best when the best tick was removed);
/// otherwise the tick is upserted and the best is refreshed by a one-sided
/// price-improvement check.
pub open spec fn lvl2_side(s: Seq<Level>, best: Option<Level>, e: Event, t: u64, is_bid: bool) -> (
    Seq<Level>,
    Option<Level>,
) {
    let k = tick_of(e.price, t);
    if e.size == 0 {
        if has_tick(s, k, t) {
            let ns = remove_tick(s, k, t);
            let nb = if best is Some && tick_of(best.unwrap().price, t) == k {
                first_opt(ns)
            } else {
                best
            };
            (ns, nb)
        } else {
            (s, best)
        }
    } else {
        let lvl = Level { price: e.price, size: e.size };
        let ns = upsert_tick(s, e, t, is_bid);
        let nb = match best {
            None => Some(lvl),
            Some(b) => if !better(b.price, e.price, is_bid) {
                Some(lvl)
            } else {
                best
            },
        };
        (ns, nb)
    }
}

/// One side's trade: reduce or remove the level at the trade's tick; the best
/// is recomputed only when the trade exhausted the level resting in the best
/// tick.
pub open spec fn trade_side(s: Seq<Level>, best: Option<Level>, e: Event, t: u64) -> (
    Seq<Level>,
    Option<Level>,
) {
    let k = tick_of(e.price, t);
    let ns = trade_tick(s, k, e.size, t);
    let nb = if tick_trade_exhausts(s, k, e.size, t) && best is Some && tick_of(
        best.unwrap().price,
        t,
    ) == k {
        first_opt(ns)
    } else {
        best
    };
    (ns, nb)
}

/// Dispatch one admitted event to the side it names.
pub open spec fn dispatch_spec(v: BookView, e: Event) -> BookView {
    if e.is_trade {
        if e.is_buy {
            let (ns, nb) = trade_side(v.bids, v.best_bid, e, v.tick_size);
            BookView { bids: ns, best_bid: nb, ..v }
        } else {
            let (ns, nb) = trade_side(v.asks, v.best_ask, e, v.tick_size);
            BookView { asks: ns, best_ask: nb, ..v }
        }
    } else {
        if e.is_buy {
            let (ns, nb) = lvl2_side(v.bids, v.best_bid, e, v.tick_size, true);
            BookView { bids: ns, best_bid: nb, ..v }
        } else {
            let (ns, nb) = lvl2_side(v.asks, v.best_ask, e, v.tick_size, false);
            BookView { asks: ns, best_ask: nb, ..v }
        }
    }
}

/// What processing one event does to the book: a stale event is discarded
/// unchanged; an admitted event is dispatched and then stamps the admission
/// clock with its timestamp and sequence number.
pub open spec fn process_spec(v: BookView, e: Event) -> BookView {
    if is_stale(e, v.last_updated, v.last_sequence) {
        v
    } else {
        BookView { last_updated: e.timestamp, last_sequence: e.seq, ..dispatch_spec(v, e) }
    }
}

/// The empty book with the given tick size.
pub open spec fn empty_book(tick_size: u64) -> BookView {
    BookView {
        best_bid: None,
        best_ask: None,
        bids: Seq::empty(),
        asks: Seq::empty(),
        last_updated: 0,
        last_sequence: 0,
        tick_size,
    }
}

/// Removing one level keeps a side well formed.
pub proof fn lemma_tick_wf_remove(s: Seq<Level>, t: u64, is_bid: bool, i: int)
    requires
        tick_wf(s, t, is_bid),
        0 <= i < s.len(),
    ensures
        tick_wf(s.remove(i), t, is_bid),
{
    s.remove_ensures(i);
    let u = s.remove(i);
    assert forall|a: int, b: int| 0 <= a < b < u.len() implies better(
        tick_of(#[trigger] u[a].price, t),
        tick_of(#[trigger] u[b].price, t),
        is_bid,
    ) by {
        assert(u[a] == if a < i {
            s[a]
        } else {
            s[a + 1]
        });
        assert(u[b] == if b < i {
            s[b]
        } else {
            s[b + 1]
        });
    }
    assert forall|a: int| 0 <= a < u.len() implies (#[trigger] u[a]).size > 0 by {
        assert(u[a] == if a < i {
            s[a]
        } else {
            s[a + 1]
        });
    }
}

/// The tick-quantized book. `bids` and `asks` hold each side's levels ordered
/// best-to-worst by tick (bids descending, asks ascending).
pub struct Orderbook {
    best_bid: Option<Level>,
    best_ask: Option<Level>,
    bids: Vec<Level>,
    asks: Vec<Level>,
    last_updated: u64,
    last_sequence: u64,
    tick_size: u64,
}

impl View for Orderbook {
    type V = BookView;

    closed spec fn view(&self) -> BookView {
        BookView {
            best_bid: self.best_bid,
            best_ask: self.best_ask,
            bids: self.bids@,
            asks: self.asks@,
            last_updated: self.last_updated,
            last_sequence: self.last_sequence,
            tick_size: self.tick_size,
        }
    }
}

/// The position where tick `k` rests or would be inserted in a side ordered
/// best-to-worst by tick, found by binary search.
fn scan_tick_pos(side: &Vec<Level>, k: u64, t: u64, is_bid: bool) -> (r: usize)
    requires
        tick_wf(side@, t, is_bid),
        t >= 1,
    ensures
        r == tick_boundary(side@, k, t, is_bid),
        r <= side@.len(),
        forall|j: int|
            0 <= j < r ==> better(tick_of((#[trigger] side@[j]).price, t), k, is_bid),
        r < side@.len() ==> !better(tick_of(side@[r as int].price, t), k, is_bid),
{
    let ghost v = side@;
    let mut left: usize = 0;
    let mut right: usize = side.len();
    while left < right
        invariant
            tick_wf(v, t, is_bid),
            t >= 1,
            v == side@,
            left <= right <= v.len(),
            forall|j: int|
                0 <= j < left ==> better(tick_of((#[trigger] v[j]).price, t), k, is_bid),
            forall|j: int|
                right <= j < v.len() ==> !better(tick_of((#[trigger] v[j]).price, t), k, is_bid),
        decreases right - left,
    {
        let mid = left + (right - left) / 2;
        let cur_tick = side[mid].price / t;
        let cur_better = if is_bid {
            cur_tick > k
        } else {
            cur_tick < k
        };
        if cur_better {
            proof {
                assert forall|j: int| 0 <= j < mid + 1 implies better(
                    tick_of((#[trigger] v[j]).price, t),
                    k,
                    is_bid,
                ) by {
                    if j < mid {
                        assert(better(
                            tick_of(v[j].price, t),
                            tick_of(v[mid as int].price, t),
                            is_bid,
                        ));
                    }
                }
            }
            left = mid + 1;
        } else {
            proof {
                assert forall|j: int| mid <= j < v.len() implies !better(
                    tick_of((#[trigger] v[j]).price, t),
                    k,
                    is_bid,
                ) by {
                    if j > mid {
                        assert(better(
                            tick_of(v[mid as int].price, t),
                            tick_of(v[j].price, t),
                            is_bid,
                        ));
                    }
                }
            }
            right = mid;
        }
    }
    proof {
        lemma_tick_boundary_unique(v, k, t, is_bid, left as int);
    }
    left
}

/// Apply one depth update to one side, keeping its tracked best consistent.
fn lvl2_apply(side: &mut Vec<Level>, best: &mut Option<Level>, e: Event, t: u64, is_bid: bool)
    requires
        side_ok(old(side)@, *old(best), t, is_bid),
        t >= 1,
    ensures
        final(side)@ == lvl2_side(old(side)@, *old(best), e, t, is_bid).0,
        *final(best) == lvl2_side(old(side)@, *old(best), e, t, is_bid).1,
        side_ok(final(side)@, *final(best), t, is_bid),
{
    let ghost s0 = side@;
    let ghost b0 = *best;
    let k = e.price / t;
    let pos = scan_tick_pos(side, k, t, is_bid);
    let found = pos < side.len() && side[pos].price / t == k;
    proof {
        if !found {
            lemma_tick_absent_at_boundary(s0, k, t, is_bid, pos as int);
        }
    }
    if e.size == 0 {
        if found {
            proof {
                lemma_remove_tick_at(s0, k, t, pos as int);
                lemma_tick_wf_remove(s0, t, is_bid, pos as int);
                s0.remove_ensures(pos as int);
            }
            side.remove(pos);
            let recompute = match *best {
                Some(b) => b.price / t == k,
                None => false,
            };
            if recompute {
                if side.len() > 0 {
                    *best = Some(side[0]);
                } else {
                    *best = None;
                }
            } else {
                proof {
                    // The removed tick was not the best one, so the head is
                    // untouched and the tracked best still rests there.
                    assert(b0 is Some);
                    assert(tick_of(s0[pos as int].price, t) != tick_of(b0.unwrap().price, t));
                    assert(pos != 0);
                }
            }
        }
    } else {
        let lvl = Level { price: e.price, size: e.size };
        if found {
            let stored_price = side[pos].price;
            proof {
                lemma_upsert_tick_overwrite(s0, e, t, is_bid, pos as int);
                lemma_tick_wf_update(
                    s0,
                    Level { price: s0[pos as int].price, size: e.size },
                    t,
                    is_bid,
                    pos as int,
                );
            }
            side[pos] = Level { price: stored_price, size: e.size };
        } else {
            proof {
                lemma_upsert_tick_insert(s0, e, t, is_bid, pos as int);
                lemma_tick_wf_insert(s0, lvl, t, is_bid, pos as int);
                s0.insert_ensures(pos as int, lvl);
            }
            side.insert(pos, lvl);
        }
        let improves = match *best {
            None => true,
            Some(b) => if is_bid {
                e.price >= b.price
            } else {
                e.price <= b.price
            },
        };
        if improves {
            *best = Some(lvl);
            proof {
                // An improving price can only land in the head tick or a
                // strictly better one, since division is monotone.
                if b0 is Some {
                    let bp = b0.unwrap().price;
                    if is_bid {
                        vstd::arithmetic::div_mod::lemma_div_is_ordered(
                            bp as int,
                            e.price as int,
                            t as int,
                        );
                    } else {
                        vstd::arithmetic::div_mod::lemma_div_is_ordered(
                            e.price as int,
                            bp as int,
                            t as int,
                        );
                    }
                    if pos != 0 {
                        assert(better(tick_of(s0[0].price, t), k, is_bid));
                        assert(false);
                    }
                } else {
                    assert(pos == 0);
                }
            }
        } else {
            proof {
                // A non-improving price lands in the head tick (where the
                // head's price stays stored) or strictly after the head.
                assert(b0 is Some);
                let bp = b0.unwrap().price;
                if is_bid {
                    vstd::arithmetic::div_mod::lemma_div_is_ordered(
                        e.price as int,
                        bp as int,
                        t as int,
                    );
                } else {
                    vstd::arithmetic::div_mod::lemma_div_is_ordered(
                        bp as int,
                        e.price as int,
                        t as int,
                    );
                }
            }
        }
    }
}

/// Apply one trade to one side, keeping its tracked best consistent.
fn trade_apply(side: &mut Vec<Level>, best: &mut Option<Level>, e: Event, t: u64, is_bid: bool)
    requires
        side_ok(old(side)@, *old(best), t, is_bid),
        t >= 1,
    ensures
        final(side)@ == trade_side(old(side)@, *old(best), e, t).0,
        *final(best) == trade_side(old(side)@, *old(best), e, t).1,
        side_ok(final(side)@, *final(best), t, is_bid),
{
    let ghost s0 = side@;
    let ghost b0 = *best;
    let k = e.price / t;
    let pos = scan_tick_pos(side, k, t, is_bid);
    let found = pos < side.len() && side[pos].price / t == k;
    if found {
        proof {
            lemma_trade_tick_at(s0, k, e.size, t, pos as int);
        }
        let resting = side[pos];
        if e.size >= resting.size {
            proof {
                lemma_tick_wf_remove(s0, t, is_bid, pos as int);
                s0.remove_ensures(pos as int);
            }
            side.remove(pos);
            let recompute = match *best {
                Some(b) => b.price / t == k,
                None => false,
            };
            if recompute {
                if side.len() > 0 {
                    *best = Some(side[0]);
                } else {
                    *best = None;
                }
            } else {
                proof {
                    assert(b0 is Some);
                    assert(tick_of(s0[pos as int].price, t) != tick_of(b0.unwrap().price, t));
                    assert(pos != 0);
                }
            }
        } else {
            let reduced = Level { price: resting.price, size: resting.size - e.size };
            proof {
                lemma_tick_wf_update(s0, reduced, t, is_bid, pos as int);
                assert(!tick_trade_exhausts(s0, k, e.size, t));
            }
            side[pos] = reduced;
        }
    } else {
        proof {
            lemma_tick_absent_at_boundary(s0, k, t, is_bid, pos as int);
            lemma_trade_tick_absent(s0, k, e.size, t);
        }
    }
}

/// The first `n` levels of one side (all of them when fewer rest).
fn top_prefix(side: &Vec<Level>, n: usize) -> (r: Vec<Level>)
    ensures
        r@ == top_levels(side@, n as int),
{
    let mut r: Vec<Level> = Vec::new();
    let mut i: usize = 0;
    while i < n && i < side.len()
        invariant
            0 <= i <= side@.len(),
            i <= n,
            r@ == side@.take(i as int),
        decreases n - i,
    {
        r.push(side[i]);
        proof {
            assert(r@ =~= side@.take(i + 1));
        }
        i = i + 1;
    }
    proof {
        assert(r@ =~= top_levels(side@, n as int));
    }
    r
}

impl Orderbook {
    /// An empty book quantizing prices into ticks of the given size, which
    /// must be positive.
    pub fn new(tick_size: u64) -> (r: Self)
        requires
            tick_size >= 1,
        ensures
            r@ == empty_book(tick_size),
            book_wf(r@),
    {
        Self {
            best_bid: None,
            best_ask: None,
            bids: Vec::new(),
            asks: Vec::new(),
            last_updated: 0,
            last_sequence: 0,
            tick_size,
        }
    }

    /// The tracked best bid.
    pub fn best_bid(&self) -> (r: Option<Level>)
        ensures
            r == self@.best_bid,
    {
        self.best_bid
    }

    /// The tracked best ask.
    pub fn best_ask(&self) -> (r: Option<Level>)
        ensures
            r == self@.best_ask,
    {
        self.best_ask
    }

    /// Apply one event given as its six scalar fields.
    pub fn process_raw(
        &mut self,
        timestamp: u64,
        seq: u64,
        is_trade: bool,
        is_buy: bool,
        price: u64,
        size: u64,
    )
        requires
            book_wf(old(self)@),
        ensures
            final(self)@ == process_spec(
                old(self)@,
                Event { timestamp, seq, is_trade, is_buy, price, size },
            ),
            book_wf(final(self)@),
    {
        let event = Event { timestamp, seq, is_trade, is_buy, price, size };
        self.process(event);
    }

    /// Apply one event given as its six scalar fields and report the best
    /// pair when it changed.
    pub fn process_stream_bbo_raw(
        &mut self,
        timestamp: u64,
        seq: u64,
        is_trade: bool,
        is_buy: bool,
        price: u64,
        size: u64,
    ) -> (r: Option<(Option<Level>, Option<Level>)>)
        requires
            book_wf(old(self)@),
        ensures
            final(self)@ == process_spec(
                old(self)@,
                Event { timestamp, seq, is_trade, is_buy, price, size },
            ),
            book_wf(final(self)@),
            r == if final(self)@.best_bid == old(self)@.best_bid && final(self)@.best_ask == old(
                self,
            )@.best_ask {
                None::<(Option<Level>, Option<Level>)>
            } else {
                Some((final(self)@.best_bid, final(self)@.best_ask))
            },
    {
        let event = Event { timestamp, seq, is_trade, is_buy, price, size };
        self.process_stream_bbo(event)
    }

    /// Apply one event: discard it when stale, else dispatch it to the side
    /// it names and stamp the admission clock. A stale event provably leaves
    /// the book unchanged.
    pub fn process(&mut self, event: Event)
        requires
            book_wf(old(self)@),
        ensures
            final(self)@ == process_spec(old(self)@, event),
            book_wf(final(self)@),
            is_stale(event, old(self)@.last_updated, old(self)@.last_sequence) ==> final(self)@
                == old(self)@,
    {
        if event.timestamp < self.last_updated || event.seq < self.last_sequence {
            return ;
        }
        match event.is_trade {
            true => self.process_trade(event),
            false => self.process_lvl2(event),
        };
        self.last_updated = event.timestamp;
        self.last_sequence = event.seq;
        proof {
            assert(self@ =~= process_spec(old(self)@, event));
        }
    }

    /// Apply one event and report the best pair when it changed: the new
    /// (best bid, best ask) when either differs from before the event, else
    /// nothing.
    pub fn process_stream_bbo(&mut self, event: Event) -> (r: Option<
        (Option<Level>, Option<Level>),
    >)
        requires
            book_wf(old(self)@),
        ensures
            final(self)@ == process_spec(old(self)@, event),
            book_wf(final(self)@),
            r == if final(self)@.best_bid == old(self)@.best_bid && final(self)@.best_ask == old(
                self,
            )@.best_ask {
                None::<(Option<Level>, Option<Level>)>
            } else {
                Some((final(self)@.best_bid, final(self)@.best_ask))
            },
    {
        let old_bid = self.best_bid;
        let old_ask = self.best_ask;
        self.process(event);
        let new_bid = self.best_bid;
        let new_ask = self.best_ask;
        if !opt_level_eq(&old_bid, &new_bid) || !opt_level_eq(&old_ask, &new_ask) {
            Some((new_bid, new_ask))
        } else {
            None
        }
    }

    fn process_lvl2(&mut self, event: Event)
        requires
            book_wf(old(self)@),
            !event.is_trade,
        ensures
            final(self)@ == dispatch_spec(old(self)@, event),
            book_wf(final(self)@),
    {
        let t = self.tick_size;
        match event.is_buy {
            true => lvl2_apply(&mut self.bids, &mut self.best_bid, event, t, true),
            false => lvl2_apply(&mut self.asks, &mut self.best_ask, event, t, false),
        }
        proof {
            assert(self@ =~= dispatch_spec(old(self)@, event));
        }
    }

    fn process_trade(&mut self, event: Event)
        requires
            book_wf(old(self)@),
            event.is_trade,
        ensures
            final(self)@ == dispatch_spec(old(self)@, event),
            book_wf(final(self)@),
    {
        let t = self.tick_size;
        match event.is_buy {
            true => trade_apply(&mut self.bids, &mut self.best_bid, event, t, true),
            false => trade_apply(&mut self.asks, &mut self.best_ask, event, t, false),
        }
        proof {
            assert(self@ =~= dispatch_spec(old(self)@, event));
        }
    }

    /// Up to `n` bid levels, best (highest tick) first.
    pub fn top_bids(&self, n: usize) -> (r: Vec<Level>)
        ensures
            r@ == top_levels(self@.bids, n as int),
    {
        top_prefix(&self.bids, n)
    }

    /// Up to `n` ask levels, best (lowest tick) first.
    pub fn top_asks(&self, n: usize) -> (r: Vec<Level>)
        ensures
            r@ == top_levels(self@.asks, n as int),
    {
        top_prefix(&self.asks, n)
    }

    /// The mean of the best bid and best ask prices, when both sides have a
    /// best level.
    pub fn midprice(&self) -> (r: Option<Ratio>)
        ensures
            r == midprice_opt(self@.best_bid, self@.best_ask),
    {
        midprice_from_best(&self.best_bid, &self.best_ask)
    }

    /// The size-weighted cross average of the best pair, when both sides have
    /// a best level.
    pub fn weighted_midprice(&self) -> (r: Option<Ratio>)
        requires
            weighted_midprice_fits(self@.best_bid, self@.best_ask),
        ensures
            r == weighted_midprice_opt(self@.best_bid, self@.best_ask),
    {
        weighted_midprice_from_best(&self.best_bid, &self.best_ask)
    }
}

/// Sortedness law: every depth prefix of a well-formed book is strictly
/// ordered best-to-worst by tick, and therefore also strictly ordered by
/// price — bids descending, asks ascending — with no duplicate prices and no
/// empty levels.
pub proof fn lemma_top_sorted(v: BookView, n: int)
    requires
        book_wf(v),
        n >= 0,
    ensures
        depth_wf(top_levels(v.bids, n), true),
        depth_wf(top_levels(v.asks, n), false),
{
    lemma_tick_wf_depth_wf(v.bids, v.tick_size, true);
    lemma_tick_wf_depth_wf(v.asks, v.tick_size, false);
    crate::depth::lemma_wf_take(
        v.bids,
        true,
        if n <= v.bids.len() {
            n
        } else {
            v.bids.len() as int
        },
    );
    crate::depth::lemma_wf_take(
        v.asks,
        false,
        if n <= v.asks.len() {
            n
        } else {
            v.asks.len() as int
        },
    );
}

/// Best-of consistency law: in a well-formed book the tracked best bid is
/// present exactly when the bid depth is non-empty, and rests in the same
/// tick as the first (best) depth level; symmetrically for asks. (This
/// variant keys levels by tick, so the tracked best pins the depth head at
/// tick granularity: after an upsert into an occupied tick the stored level
/// keeps its original price, and after a partial trade against the best
/// level the tracked size lags the store.)
pub proof fn lemma_best_consistent(v: BookView)
    requires
        book_wf(v),
    ensures
        v.best_bid is Some <==> top_levels(v.bids, 1).len() == 1,
        v.best_bid is Some ==> tick_of(v.best_bid.unwrap().price, v.tick_size) == tick_of(
            top_levels(v.bids, 1)[0].price,
            v.tick_size,
        ),
        v.best_ask is Some <==> top_levels(v.asks, 1).len() == 1,
        v.best_ask is Some ==> tick_of(v.best_ask.unwrap().price, v.tick_size) == tick_of(
            top_levels(v.asks, 1)[0].price,
            v.tick_size,
        ),
{
}

/// The index of the level resting in tick `k`, unique in a well-formed side.
pub open spec fn index_of_tick(s: Seq<Level>, k: u64, t: u64) -> int {
    choose|i: int| 0 <= i < s.len() && tick_of((#[trigger] s[i]).price, t) == k
}

/// Trade exhaustion law: against a well-formed side, a trade of `sz` in a
/// resting tick `k` removes that level when `sz` covers its resting size, and
/// otherwise reduces exactly that level by `sz`, leaving every other level
/// untouched.
pub proof fn lemma_trade_exhaustion(s: Seq<Level>, k: u64, sz: u64, t: u64, is_bid: bool)
    requires
        tick_wf(s, t, is_bid),
        has_tick(s, k, t),
    ensures
        0 <= index_of_tick(s, k, t) < s.len(),
        tick_of(s[index_of_tick(s, k, t)].price, t) == k,
        size_at_tick(s, k, t) == s[index_of_tick(s, k, t)].size,
        sz >= size_at_tick(s, k, t) ==> trade_tick(s, k, sz, t) == s.remove(index_of_tick(s, k, t)),
        sz < size_at_tick(s, k, t) ==> trade_tick(s, k, sz, t) == s.update(
            index_of_tick(s, k, t),
            Level {
                price: s[index_of_tick(s, k, t)].price,
                size: (size_at_tick(s, k, t) - sz) as u64,
            },
        ),
{
    let i = index_of_tick(s, k, t);
    assert(0 <= i < s.len() && tick_of(s[i].price, t) == k);
    assert forall|j: int| 0 <= j < i implies tick_of((#[trigger] s[j]).price, t) != k by {
        if tick_of(s[j].price, t) == k {
            lemma_tick_index_unique(s, t, is_bid, i, j);
        }
    }
    lemma_trade_tick_at(s, k, sz, t, i);
}

/// Removal idempotence law: processing the same price-removal event twice
/// leaves the book exactly as processing it once — the second application is
/// a no-op.
pub proof fn lemma_removal_idempotent(v: BookView, e: Event)
    requires
        book_wf(v),
        !e.is_trade,
        e.size == 0,
    ensures
        process_spec(process_spec(v, e), e) == process_spec(v, e),
{
    if !is_stale(e, v.last_updated, v.last_sequence) {
        let v1 = process_spec(v, e);
        let k = tick_of(e.price, v.tick_size);
        assert(!is_stale(e, v1.last_updated, v1.last_sequence));
        if e.is_buy {
            if has_tick(v.bids, k, v.tick_size) {
                lemma_remove_tick_gone(v.bids, k, v.tick_size, true);
            }
            assert(!has_tick(v1.bids, k, v.tick_size));
        } else {
            if has_tick(v.asks, k, v.tick_size) {
                lemma_remove_tick_gone(v.asks, k, v.tick_size, false);
            }
            assert(!has_tick(v1.asks, k, v.tick_size));
        }
        assert(process_spec(v1, e) =~= v1);
    }
}

} // verus!
