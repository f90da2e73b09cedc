//! The linear-scan order book: each side is an unbounded vector of levels
//! kept ordered best-to-worst, searched by a linear scan, with an
//! incrementally tracked best level per side.

use vstd::prelude::*;

use crate::depth::{
    apply_trade, better, boundary, depth_wf, first_opt, has_price, lemma_absent_at_boundary,
    lemma_boundary, lemma_remove_at, lemma_remove_price_gone, lemma_trade_absent, lemma_trade_at,
    lemma_upsert_insert, lemma_upsert_overwrite, lemma_wf_insert, lemma_wf_remove, lemma_wf_take,
    lemma_wf_update, remove_price, top_levels, trade_exhausts, upsert,
};
use crate::event::{is_stale, Event};
use crate::level::{opt_level_eq, Level};
use crate::metrics::{
    midprice_from_best, midprice_opt, weighted_midprice_fits, weighted_midprice_from_best,
    weighted_midprice_opt, Ratio,
};

verus! {

/// The mathematical state of the book: each side's depth best-first, the
/// tracked best levels, and the admission clock.
#[verifier::ext_equal]
pub struct BookView {
    pub best_bid: Option<Level>,
    pub best_ask: Option<Level>,
    pub bids: Seq<Level>,
    pub asks: Seq<Level>,
    pub last_updated: u64,
    pub last_sequence: u64,
}

/// One side and its tracked best are consistent when the side is well formed,
/// the best is present exactly when the side is non-empty, and the tracked
/// best rests at the side's best price. (The tracked size may lag the store
/// after a partial trade against the best level: trades never update the
/// tracker in place.)
pub open spec fn side_ok(s: Seq<Level>, best: Option<Level>, is_bid: bool) -> bool {
    &&& depth_wf(s, is_bid)
    &&& (best is None <==> s.len() == 0)
    &&& (best is Some ==> best.unwrap().price == s[0].price && best.unwrap().size > 0)
}

/// The book invariant: both sides are consistent with their tracked bests.
pub open spec fn book_wf(v: BookView) -> bool {
    side_ok(v.bids, v.best_bid, true) && side_ok(v.asks, v.best_ask, false)
}

/// One side's depth update. `size == 0` removes the level at the event's
/// price if present (recomputing the best when the best price was removed);
/// otherwise the level is upserted and the best is refreshed by a one-sided
/// improvement check.
pub open spec fn lvl2_side(s: Seq<Level>, best: Option<Level>, e: Event, is_bid: bool) -> (
    Seq<Level>,
    Option<Level>,
) {
    if e.size == 0 {
        if has_price(s, e.price) {
            let ns = remove_price(s, e.price);
            let nb = if best is Some && best.unwrap().price == e.price {
                first_opt(ns)
            } else {
                best
            };
            (ns, nb)
        } else {
            (s, best)
        }
    } else {
        let lvl = Level { price: e.price, size: e.size };
        let ns = upsert(s, lvl, is_bid);
        let nb = match best {
            None => Some(lvl),
            Some(b) => if !better(b.price, e.price, is_bid) {
                Some(lvl)
            } else {
                best
            },
        };
        (ns, nb)
    }
}

/// One side's trade. The trade reduces or removes the level at its price; the
/// best is recomputed only when the trade exhausted the level resting at the
/// best price.
pub open spec fn trade_side(s: Seq<Level>, best: Option<Level>, e: Event) -> (
    Seq<Level>,
    Option<Level>,
) {
    let ns = apply_trade(s, e.price, e.size);
    let nb = if trade_exhausts(s, e.price, e.size) && best is Some && best.unwrap().price
        == e.price {
        first_opt(ns)
    } else {
        best
    };
    (ns, nb)
}

/// Dispatch one admitted event to the side it names.
pub open spec fn dispatch_spec(v: BookView, e: Event) -> BookView {
    if e.is_trade {
        if e.is_buy {
            let (ns, nb) = trade_side(v.bids, v.best_bid, e);
            BookView { bids: ns, best_bid: nb, ..v }
        } else {
            let (ns, nb) = trade_side(v.asks, v.best_ask, e);
            BookView { asks: ns, best_ask: nb, ..v }
        }
    } else {
        if e.is_buy {
            let (ns, nb) = lvl2_side(v.bids, v.best_bid, e, true);
            BookView { bids: ns, best_bid: nb, ..v }
        } else {
            let (ns, nb) = lvl2_side(v.asks, v.best_ask, e, false);
            BookView { asks: ns, best_ask: nb, ..v }
        }
    }
}

/// What processing one event does to the book: a stale event is discarded
/// unchanged; an admitted event is dispatched and then stamps the admission
/// clock with its timestamp and sequence number.
pub open spec fn process_spec(v: BookView, e: Event) -> BookView {
    if is_stale(e, v.last_updated, v.last_sequence) {
        v
    } else {
        BookView { last_updated: e.timestamp, last_sequence: e.seq, ..dispatch_spec(v, e) }
    }
}

/// The empty book.
pub open spec fn empty_book() -> BookView {
    BookView {
        best_bid: None,
        best_ask: None,
        bids: Seq::empty(),
        asks: Seq::empty(),
        last_updated: 0,
        last_sequence: 0,
    }
}

/// The linear-scan book. `bids` and `asks` hold each side's levels ordered
/// best-to-worst (bids descending, asks ascending by price).
pub struct Orderbook {
    best_bid: Option<Level>,
    best_ask: Option<Level>,
    bids: Vec<Level>,
    asks: Vec<Level>,
    last_updated: u64,
    last_sequence: u64,
}

impl View for Orderbook {
    type V = BookView;

    closed spec fn view(&self) -> BookView {
        BookView {
            best_bid: self.best_bid,
            best_ask: self.best_ask,
            bids: self.bids@,
            asks: self.asks@,
            last_updated: self.last_updated,
            last_sequence: self.last_sequence,
        }
    }
}

/// The position where `p` rests or would be inserted in a side ordered
/// best-to-worst, found by a linear scan.
fn scan_pos(side: &Vec<Level>, p: u64, is_bid: bool) -> (r: usize)
    requires
        depth_wf(side@, is_bid),
    ensures
        r == boundary(side@, p, is_bid),
        r <= side@.len(),
        forall|j: int| 0 <= j < r ==> better((#[trigger] side@[j]).price, p, is_bid),
        r < side@.len() ==> !better(side@[r as int].price, p, is_bid),
{
    proof {
        lemma_boundary(side@, p, is_bid);
    }
    let ghost b = boundary(side@, p, is_bid);
    let mut i: usize = 0;
    loop
        invariant
            depth_wf(side@, is_bid),
            0 <= i <= side@.len(),
            i <= b <= side@.len(),
            forall|j: int| 0 <= j < b ==> better((#[trigger] side@[j]).price, p, is_bid),
            b < side@.len() ==> !better(side@[b].price, p, is_bid),
        ensures
            i == b,
        decreases side@.len() - i,
    {
        if i >= side.len() {
            break ;
        }
        let cur = side[i];
        if is_bid {
            if cur.price <= p {
                break ;
            }
        } else {
            if cur.price >= p {
                break ;
            }
        }
        proof {
            if i == b {
                assert(better(side@[i as int].price, p, is_bid));
            }
        }
        i = i + 1;
    }
    i
}

/// Apply one depth update to one side, keeping its tracked best consistent.
fn lvl2_apply(side: &mut Vec<Level>, best: &mut Option<Level>, e: Event, is_bid: bool)
    requires
        side_ok(old(side)@, *old(best), is_bid),
    ensures
        final(side)@ == lvl2_side(old(side)@, *old(best), e, is_bid).0,
        *final(best) == lvl2_side(old(side)@, *old(best), e, is_bid).1,
        side_ok(final(side)@, *final(best), is_bid),
{
    let ghost s0 = side@;
    let ghost b0 = *best;
    let pos = scan_pos(side, e.price, is_bid);
    let found = pos < side.len() && side[pos].price == e.price;
    proof {
        if !found {
            lemma_absent_at_boundary(s0, e.price, is_bid, pos as int);
        }
    }
    if e.size == 0 {
        if found {
            proof {
                lemma_remove_at(s0, e.price, pos as int);
                lemma_wf_remove(s0, is_bid, pos as int);
                s0.remove_ensures(pos as int);
                assert(has_price(s0, e.price));
            }
            side.remove(pos);
            let recompute = match *best {
                Some(b) => b.price == e.price,
                None => false,
            };
            if recompute {
                if side.len() > 0 {
                    *best = Some(side[0]);
                } else {
                    *best = None;
                }
            } else {
                proof {
                    // The removed level was not the best one, so the head is
                    // untouched and the tracked best still rests there.
                    assert(b0 is Some);
                    assert(s0[pos as int].price != b0.unwrap().price);
                    assert(pos != 0);
                }
            }
        }
    } else {
        let lvl = Level { price: e.price, size: e.size };
        if found {
            proof {
                lemma_upsert_overwrite(s0, lvl, is_bid, pos as int);
                lemma_wf_update(s0, lvl, is_bid, pos as int);
            }
            side[pos] = lvl;
        } else {
            proof {
                lemma_upsert_insert(s0, lvl, is_bid, pos as int);
                lemma_wf_insert(s0, lvl, is_bid, pos as int);
                s0.insert_ensures(pos as int, lvl);
            }
            side.insert(pos, lvl);
        }
        let improves = match *best {
            None => true,
            Some(b) => if is_bid {
                e.price >= b.price
            } else {
                e.price <= b.price
            },
        };
        if improves {
            *best = Some(lvl);
            proof {
                // An improving price can only land at the head: every level
                // before the insertion point is strictly better.
                if pos != 0 {
                    assert(better(s0[0].price, e.price, is_bid));
                    assert(b0 is Some ==> b0.unwrap().price == s0[0].price);
                    assert(false);
                }
            }
        } else {
            proof {
                // A non-improving price lands strictly after the head.
                assert(b0 is Some);
                if pos == 0 {
                    assert(!better(b0.unwrap().price, e.price, is_bid));
                    assert(false);
                }
            }
        }
    }
}

/// Apply one trade to one side, keeping its tracked best consistent.
fn trade_apply(side: &mut Vec<Level>, best: &mut Option<Level>, e: Event, is_bid: bool)
    requires
        side_ok(old(side)@, *old(best), is_bid),
    ensures
        final(side)@ == trade_side(old(side)@, *old(best), e).0,
        *final(best) == trade_side(old(side)@, *old(best), e).1,
        side_ok(final(side)@, *final(best), is_bid),
{
    let ghost s0 = side@;
    let ghost b0 = *best;
    let pos = scan_pos(side, e.price, is_bid);
    let found = pos < side.len() && side[pos].price == e.price;
    if found {
        proof {
            lemma_trade_at(s0, e.price, e.size, pos as int);
        }
        let resting = side[pos].size;
        if e.size >= resting {
            proof {
                lemma_wf_remove(s0, is_bid, pos as int);
                s0.remove_ensures(pos as int);
            }
            side.remove(pos);
            let recompute = match *best {
                Some(b) => b.price == e.price,
                None => false,
            };
            if recompute {
                if side.len() > 0 {
                    *best = Some(side[0]);
                } else {
                    *best = None;
                }
            } else {
                proof {
                    assert(b0 is Some);
                    assert(s0[pos as int].price != b0.unwrap().price);
                    assert(pos != 0);
                }
            }
        } else {
            let reduced = Level { price: e.price, size: resting - e.size };
            proof {
                lemma_wf_update(s0, reduced, is_bid, pos as int);
                assert(!trade_exhausts(s0, e.price, e.size));
            }
            side[pos] = reduced;
        }
    } else {
        proof {
            lemma_absent_at_boundary(s0, e.price, is_bid, pos as int);
            lemma_trade_absent(s0, e.price, e.size);
        }
    }
}

impl Orderbook {
    /// An empty book.
    pub fn new() -> (r: Self)
        ensures
            r@ == empty_book(),
            book_wf(r@),
    {
        Self {
            best_bid: None,
            best_ask: None,
            bids: Vec::new(),
            asks: Vec::new(),
            last_updated: 0,
            last_sequence: 0,
        }
    }

    /// The tracked best bid.
    pub fn best_bid(&self) -> (r: Option<Level>)
        ensures
            r == self@.best_bid,
    {
        self.best_bid
    }

    /// The tracked best ask.
    pub fn best_ask(&self) -> (r: Option<Level>)
        ensures
            r == self@.best_ask,
    {
        self.best_ask
    }

    /// Apply one event: discard it when stale, else dispatch it to the side
    /// it names and stamp the admission clock. A stale event provably leaves
    /// the book unchanged.
    pub fn process(&mut self, event: Event)
        requires
            book_wf(old(self)@),
        ensures
            final(self)@ == process_spec(old(self)@, event),
            book_wf(final(self)@),
            is_stale(event, old(self)@.last_updated, old(self)@.last_sequence) ==> final(self)@
                == old(self)@,
    {
        if event.timestamp < self.last_updated || event.seq < self.last_sequence {
            return ;
        }
        match event.is_trade {
            true => self.process_trade(event),
            false => self.process_lvl2(event),
        };
        self.last_updated = event.timestamp;
        self.last_sequence = event.seq;
        proof {
            assert(self@ =~= process_spec(old(self)@, event));
        }
    }

    /// Apply one event and report the best pair when it changed: the new
    /// (best bid, best ask) when either differs from before the event, else
    /// nothing.
    pub fn process_stream_bbo(&mut self, event: Event) -> (r: Option<
        (Option<Level>, Option<Level>),
    >)
        requires
            book_wf(old(self)@),
        ensures
            final(self)@ == process_spec(old(self)@, event),
            book_wf(final(self)@),
            r == if final(self)@.best_bid == old(self)@.best_bid && final(self)@.best_ask == old(
                self,
            )@.best_ask {
                None::<(Option<Level>, Option<Level>)>
            } else {
                Some((final(self)@.best_bid, final(self)@.best_ask))
            },
    {
        let old_bid = self.best_bid;
        let old_ask = self.best_ask;
        self.process(event);
        let new_bid = self.best_bid;
        let new_ask = self.best_ask;
        if !opt_level_eq(&old_bid, &new_bid) || !opt_level_eq(&old_ask, &new_ask) {
            Some((new_bid, new_ask))
        } else {
            None
        }
    }

    fn process_lvl2(&mut self, event: Event)
        requires
            book_wf(old(self)@),
            !event.is_trade,
        ensures
            final(self)@ == dispatch_spec(old(self)@, event),
            book_wf(final(self)@),
    {
        match event.is_buy {
            true => lvl2_apply(&mut self.bids, &mut self.best_bid, event, true),
            false => lvl2_apply(&mut self.asks, &mut self.best_ask, event, false),
        }
        proof {
            assert(self@ =~= dispatch_spec(old(self)@, event));
        }
    }

    fn process_trade(&mut self, event: Event)
        requires
            book_wf(old(self)@),
            event.is_trade,
        ensures
            final(self)@ == dispatch_spec(old(self)@, event),
            book_wf(final(self)@),
    {
        match event.is_buy {
            true => trade_apply(&mut self.bids, &mut self.best_bid, event, true),
            false => trade_apply(&mut self.asks, &mut self.best_ask, event, false),
        }
        proof {
            assert(self@ =~= dispatch_spec(old(self)@, event));
        }
    }

    /// Up to `n` bid levels, best (highest price) first.
    pub fn top_n_bids(&self, n: usize) -> (r: Vec<Level>)
        ensures
            r@ == top_levels(self@.bids, n as int),
    {
        top_prefix(&self.bids, n)
    }

    /// Up to `n` ask levels, best (lowest price) first.
    pub fn top_n_asks(&self, n: usize) -> (r: Vec<Level>)
        ensures
            r@ == top_levels(self@.asks, n as int),
    {
        top_prefix(&self.asks, n)
    }

    /// The mean of the best bid and best ask prices, when both sides have a
    /// best level.
    pub fn midprice(&self) -> (r: Option<Ratio>)
        ensures
            r == midprice_opt(self@.best_bid, self@.best_ask),
    {
        midprice_from_best(&self.best_bid, &self.best_ask)
    }

    /// The size-weighted cross average of the best pair, when both sides have
    /// a best level.
    pub fn weighted_midprice(&self) -> (r: Option<Ratio>)
        requires
            weighted_midprice_fits(self@.best_bid, self@.best_ask),
        ensures
            r == weighted_midprice_opt(self@.best_bid, self@.best_ask),
    {
        weighted_midprice_from_best(&self.best_bid, &self.best_ask)
    }
}

impl Default for Orderbook {
    /// An empty book.
    fn default() -> (r: Self)
        ensures
            r@ == empty_book(),
            book_wf(r@),
    {
        Orderbook::new()
    }
}

/// The first `n` levels of one side (all of them when fewer rest).
fn top_prefix(side: &Vec<Level>, n: usize) -> (r: Vec<Level>)
    ensures
        r@ == top_levels(side@, n as int),
{
    let mut r: Vec<Level> = Vec::new();
    let mut i: usize = 0;
    while i < n && i < side.len()
        invariant
            0 <= i <= side@.len(),
            i <= n,
            i < n ==> i <= side@.len(),
            r@ == side@.take(i as int),
        decreases n - i,
    {
        r.push(side[i]);
        proof {
            assert(r@ =~= side@.take(i + 1));
        }
        i = i + 1;
    }
    proof {
        assert(r@ =~= top_levels(side@, n as int));
    }
    r
}

/// Sortedness law: every depth prefix of a well-formed book is strictly
/// ordered best-to-worst — bids by descending price, asks by ascending price —
/// with no duplicate prices and no empty levels.
pub proof fn lemma_top_sorted(v: BookView, n: int)
    requires
        book_wf(v),
        n >= 0,
    ensures
        depth_wf(top_levels(v.bids, n), true),
        depth_wf(top_levels(v.asks, n), false),
{
    lemma_wf_take(v.bids, true, if n <= v.bids.len() { n } else { v.bids.len() as int });
    lemma_wf_take(v.asks, false, if n <= v.asks.len() { n } else { v.asks.len() as int });
}

/// Best-of consistency law: in a well-formed book the tracked best bid is
/// present exactly when the bid depth is non-empty, and rests at the price of
/// the first (best) depth level; symmetrically for asks. (The tracked size may
/// lag the depth after a partial trade against the best level, so the law
/// pins the price, not the size.)
pub proof fn lemma_best_consistent(v: BookView)
    requires
        book_wf(v),
    ensures
        v.best_bid is Some <==> top_levels(v.bids, 1).len() == 1,
        v.best_bid is Some ==> v.best_bid.unwrap().price == top_levels(v.bids, 1)[0].price,
        v.best_ask is Some <==> top_levels(v.asks, 1).len() == 1,
        v.best_ask is Some ==> v.best_ask.unwrap().price == top_levels(v.asks, 1)[0].price,
{
}

/// Removal idempotence law: processing the same price-removal event twice
/// leaves the book exactly as processing it once — the second application is
/// a no-op.
pub proof fn lemma_removal_idempotent(v: BookView, e: Event)
    requires
        book_wf(v),
        !e.is_trade,
        e.size == 0,
    ensures
        process_spec(process_spec(v, e), e) == process_spec(v, e),
{
    if !is_stale(e, v.last_updated, v.last_sequence) {
        let v1 = process_spec(v, e);
        assert(!is_stale(e, v1.last_updated, v1.last_sequence));
        if e.is_buy {
            if has_price(v.bids, e.price) {
                lemma_remove_price_gone(v.bids, e.price, true);
            }
            assert(!has_price(v1.bids, e.price));
        } else {
            if has_price(v.asks, e.price) {
                lemma_remove_price_gone(v.asks, e.price, false);
            }
            assert(!has_price(v1.asks, e.price));
        }
        assert(process_spec(v1, e) =~= v1);
    }
}

} // verus!
