//! The fixed-capacity order book: each side is a bounded buffer of explicitly
//! tagged slots kept sorted best-to-worst at all times, searched by binary
//! search, with insertion and removal done by cascading shifts. Levels pushed
//! past the last slot are dropped, so depth beyond the capacity is silently
//! truncated. The best level of a side is always its first slot, read
//! directly, so it is exact after every operation.

use vstd::prelude::*;

use crate::depth::{
    apply_trade, better, boundary, depth_wf, first_opt, has_price, lemma_absent_at_boundary,
    lemma_boundary, lemma_remove_absent, lemma_remove_at, lemma_remove_price_gone,
    lemma_trade_absent, lemma_trade_at, lemma_upsert_insert, lemma_upsert_overwrite,
    lemma_wf_insert, lemma_wf_remove, lemma_wf_take, lemma_wf_update, remove_price, top_levels,
    upsert,
};
use crate::event::{is_stale, Event};
use crate::level::{opt_level_eq, Level};
use crate::metrics::{
    midprice_from_best, midprice_opt, weighted_midprice_fits, weighted_midprice_from_best,
    weighted_midprice_opt, Ratio,
};

verus! {

/// How many levels one side can hold.
pub const CAPACITY: usize = 100;

/// One buffer slot: explicitly tagged empty, or holding a level. Empty slots
/// sort after every occupied one.
#[derive(Clone, Copy, Debug, PartialEq, Eq, Structural)]
pub enum Slot {
    Empty,
    Filled(Level),
}

/// The level a filled slot holds.
pub open spec fn slot_level(s: Slot) -> Level {
    match s {
        Slot::Filled(l) => l,
        Slot::Empty => Level { price: 0, size: 0 },
    }
}

/// Occupied slots form a prefix: no filled slot follows an empty one.
pub open spec fn packed(s: Seq<Slot>) -> bool {
    forall|i: int, j: int| 0 <= i < j < s.len() && (#[trigger] s[j]) is Filled ==> (#[trigger] s[i]) is Filled
}

/// The number of leading filled slots.
pub open spec fn occ_len(s: Seq<Slot>) -> int
    decreases s.len(),
{
    if s.len() == 0 {
        0
    } else if s[0] is Empty {
        0
    } else {
        1 + occ_len(s.drop_first())
    }
}

/// The levels a buffer holds: those of its leading filled slots, in order.
pub open spec fn levels_of(s: Seq<Slot>) -> Seq<Level> {
    Seq::new(occ_len(s) as nat, |i: int| slot_level(s[i]))
}

/// What a bounded insertion at position `i` leaves behind: the levels with
/// `lvl` inserted at `i`, truncated to the buffer's capacity.
pub open spec fn insert_capped(v: Seq<Level>, i: int, lvl: Level) -> Seq<Level> {
    let w = v.insert(i, lvl);
    w.take(
        if w.len() <= CAPACITY {
            w.len() as int
        } else {
            CAPACITY as int
        },
    )
}

pub proof fn lemma_occ_len_bounds(s: Seq<Slot>)
    ensures
        0 <= occ_len(s) <= s.len(),
    decreases s.len(),
{
    if s.len() > 0 && s[0] is Filled {
        lemma_occ_len_bounds(s.drop_first());
    }
}

/// In a packed buffer a slot is filled exactly when its index is below the
/// occupied length.
pub proof fn lemma_occ_len_filled(s: Seq<Slot>)
    requires
        packed(s),
    ensures
        0 <= occ_len(s) <= s.len(),
        forall|i: int| 0 <= i < s.len() ==> ((#[trigger] s[i]) is Filled <==> i < occ_len(s)),
    decreases s.len(),
{
    lemma_occ_len_bounds(s);
    if s.len() > 0 {
        let t = s.drop_first();
        if s[0] is Filled {
            assert(packed(t)) by {
                assert forall|i: int, j: int|
                    0 <= i < j < t.len() && (#[trigger] t[j]) is Filled implies (
                    #[trigger] t[i]) is Filled by {
                    assert(t[j] == s[j + 1]);
                    assert(t[i] == s[i + 1]);
                }
            }
            lemma_occ_len_filled(t);
            assert forall|i: int| 0 <= i < s.len() implies ((#[trigger] s[i]) is Filled <==> i
                < occ_len(s)) by {
                if i > 0 {
                    assert(s[i] == t[i - 1]);
                }
            }
        } else {
            assert forall|i: int| 0 <= i < s.len() implies !((#[trigger] s[i]) is Filled) by {
                if i > 0 && s[i] is Filled {
                    assert(s[0] is Filled);
                }
            }
        }
    }
}

/// A buffer whose filled slots are exactly those below `m` is packed and has
/// occupied length `m`.
pub proof fn lemma_occ_len_is(s: Seq<Slot>, m: int)
    requires
        0 <= m <= s.len(),
        forall|i: int| 0 <= i < s.len() ==> ((#[trigger] s[i]) is Filled <==> i < m),
    ensures
        packed(s),
        occ_len(s) == m,
    decreases s.len(),
{
    if s.len() > 0 {
        let t = s.drop_first();
        if m > 0 {
            assert(s[0] is Filled);
            assert forall|i: int| 0 <= i < t.len() implies ((#[trigger] t[i]) is Filled <==> i < m
                - 1) by {
                assert(t[i] == s[i + 1]);
            }
            lemma_occ_len_is(t, m - 1);
        } else {
            assert(s[0] is Empty);
            assert forall|i: int| 0 <= i < t.len() implies ((#[trigger] t[i]) is Filled <==> i
                < 0) by {
                assert(t[i] == s[i + 1]);
            }
            lemma_occ_len_is(t, 0);
        }
    }
}

/// Overwriting a filled slot with another level keeps the buffer packed and
/// updates exactly that position of its levels.
pub proof fn lemma_levels_update(s: Seq<Slot>, i: int, lvl: Level)
    requires
        packed(s),
        0 <= i < occ_len(s),
    ensures
        packed(s.update(i, Slot::Filled(lvl))),
        occ_len(s.update(i, Slot::Filled(lvl))) == occ_len(s),
        levels_of(s.update(i, Slot::Filled(lvl))) == levels_of(s).update(i, lvl),
{
    lemma_occ_len_filled(s);
    let t = s.update(i, Slot::Filled(lvl));
    assert forall|j: int| 0 <= j < t.len() implies ((#[trigger] t[j]) is Filled <==> j < occ_len(
        s,
    )) by {
        if j != i {
            assert(t[j] == s[j]);
        }
    }
    lemma_occ_len_is(t, occ_len(s));
    assert(levels_of(t) =~= levels_of(s).update(i, lvl));
}

/// One side's bounded buffer: exactly [`CAPACITY`] tagged slots whose
/// occupied slots form a leading prefix. Its view is the sequence of levels
/// that prefix holds.
pub struct Buffer {
    buf: Vec<Slot>,
}

impl View for Buffer {
    type V = Seq<Level>;

    closed spec fn view(&self) -> Seq<Level> {
        levels_of(self.buf@)
    }
}

impl Buffer {
    /// The buffer's representation invariant: a fixed number of slots, with
    /// the occupied ones packed at the front.
    pub closed spec fn inv(&self) -> bool {
        &&& self.buf@.len() == CAPACITY
        &&& packed(self.buf@)
    }

    /// The buffer can hold no more than [`CAPACITY`] levels.
    pub proof fn lemma_len(&self)
        requires
            self.inv(),
        ensures
            self@.len() <= CAPACITY,
    {
        lemma_occ_len_bounds(self.buf@);
    }

    /// An all-empty buffer.
    pub fn new() -> (r: Self)
        ensures
            r.inv(),
            r@ == Seq::<Level>::empty(),
    {
        let mut buf: Vec<Slot> = Vec::new();
        let mut i: usize = 0;
        while i < CAPACITY
            invariant
                i <= CAPACITY,
                buf@.len() == i,
                forall|j: int| 0 <= j < i ==> (#[trigger] buf@[j]) is Empty,
            decreases CAPACITY - i,
        {
            buf.push(Slot::Empty);
            i = i + 1;
        }
        proof {
            lemma_occ_len_is(buf@, 0);
            assert(levels_of(buf@) =~= Seq::<Level>::empty());
        }
        Self { buf }
    }

    /// The first slot's level, or nothing when the buffer is empty: the
    /// side's best level, since the buffer is kept sorted best-to-worst.
    pub fn first(&self) -> (r: Option<Level>)
        requires
            self.inv(),
        ensures
            r == first_opt(self@),
    {
        proof {
            lemma_occ_len_filled(self.buf@);
        }
        match self.buf[0] {
            Slot::Filled(l) => Some(l),
            Slot::Empty => None,
        }
    }

    /// The level at an occupied position.
    pub fn get(&self, index: usize) -> (r: &Level)
        requires
            self.inv(),
            index < self@.len(),
        ensures
            *r == self@[index as int],
    {
        proof {
            lemma_occ_len_filled(self.buf@);
        }
        match &self.buf[index] {
            Slot::Filled(l) => l,
            Slot::Empty => vstd::pervasive::unreached(),
        }
    }

    /// A mutable borrow of the level at an occupied position; writing through
    /// it overwrites exactly that position.
    pub fn get_mut(&mut self, index: usize) -> (r: &mut Level)
        requires
            old(self).inv(),
            index < old(self)@.len(),
        ensures
            *r == old(self)@[index as int],
            final(self)@ == old(self)@.update(index as int, *final(r)),
            final(self).inv(),
            final(self)@.len() == old(self)@.len(),
    {
        proof {
            lemma_occ_len_filled(self.buf@);
        }
        let ghost slots0 = self.buf@;
        let slot = &mut self.buf[index];
        match slot {
            Slot::Filled(l) => {
                proof {
                    lemma_levels_update(slots0, index as int, *final(l));
                }
                l
            },
            Slot::Empty => vstd::pervasive::unreached(),
        }
    }

    /// The slot where `target` rests, or the slot where it should be inserted
    /// to keep the bid side sorted by descending price, empty slots after
    /// every occupied one.
    pub fn find_index_bids(&self, target: u64) -> (r: Result<usize, usize>)
        requires
            self.inv(),
            depth_wf(self@, true),
        ensures
            match r {
                Ok(i) => i < self@.len() && self@[i as int].price == target,
                Err(i) => {
                    &&& i == boundary(self@, target, true)
                    &&& i <= self@.len()
                    &&& !has_price(self@, target)
                },
            },
    {
        self.find_index(target, true)
    }

    /// The slot where `target` rests, or the slot where it should be inserted
    /// to keep the ask side sorted by ascending price, empty slots after
    /// every occupied one.
    pub fn find_index_asks(&self, target: u64) -> (r: Result<usize, usize>)
        requires
            self.inv(),
            depth_wf(self@, false),
        ensures
            match r {
                Ok(i) => i < self@.len() && self@[i as int].price == target,
                Err(i) => {
                    &&& i == boundary(self@, target, false)
                    &&& i <= self@.len()
                    &&& !has_price(self@, target)
                },
            },
    {
        self.find_index(target, false)
    }

    /// Binary search over the slots, treating an empty slot as sorting after
    /// every occupied one.
    fn find_index(&self, target: u64, is_bid: bool) -> (r: Result<usize, usize>)
        requires
            self.inv(),
            depth_wf(self@, is_bid),
        ensures
            match r {
                Ok(i) => i < self@.len() && self@[i as int].price == target,
                Err(i) => {
                    &&& i == boundary(self@, target, is_bid)
                    &&& i <= self@.len()
                    &&& !has_price(self@, target)
                },
            },
    {
        proof {
            lemma_occ_len_filled(self.buf@);
        }
        let ghost v = self@;
        let mut size = CAPACITY;
        let mut left: usize = 0;
        let mut right: usize = size;
        while left < right
            invariant
                self.inv(),
                depth_wf(v, is_bid),
                v == self@,
                forall|j: int|
                    0 <= j < self.buf@.len() ==> ((#[trigger] self.buf@[j]) is Filled <==> j
                        < v.len()),
                left <= right <= CAPACITY,
                left <= v.len(),
                size == right - left,
                forall|j: int| 0 <= j < left ==> better((#[trigger] v[j]).price, target, is_bid),
                forall|j: int|
                    right <= j < v.len() ==> better(target, (#[trigger] v[j]).price, is_bid),
            ensures
                left == right,
            decreases right - left,
        {
            let mid = left + size / 4;
            let cur = self.buf[mid];
            match cur {
                Slot::Empty => {
                    right = mid;
                },
                Slot::Filled(l) => {
                    let target_better = if is_bid {
                        target > l.price
                    } else {
                        target < l.price
                    };
                    let cur_better = if is_bid {
                        target < l.price
                    } else {
                        target > l.price
                    };
                    if target_better {
                        proof {
                            assert forall|j: int|
                                mid <= j < v.len() implies better(
                                target,
                                (#[trigger] v[j]).price,
                                is_bid,
                            ) by {
                                if j > mid {
                                    assert(better(v[mid as int].price, v[j].price, is_bid));
                                }
                            }
                        }
                        right = mid;
                    } else if cur_better {
                        proof {
                            assert forall|j: int|
                                0 <= j < mid + 1 implies better(
                                (#[trigger] v[j]).price,
                                target,
                                is_bid,
                            ) by {
                                if j < mid {
                                    assert(better(v[j].price, v[mid as int].price, is_bid));
                                }
                            }
                        }
                        left = mid + 1;
                    } else {
                        return Ok(mid);
                    }
                },
            }
            size = right - left;
        }
        proof {
            crate::depth::lemma_boundary_unique(v, target, is_bid, left as int);
            if left < v.len() {
                assert(better(target, v[left as int].price, is_bid));
            }
            lemma_absent_at_boundary(v, target, is_bid, left as int);
        }
        Err(left)
    }

    /// Remove the level at an occupied position, shifting every following
    /// occupied slot left by one, and return the removed price.
    pub fn remove(&mut self, index: usize) -> (r: u64)
        requires
            old(self).inv(),
            index < old(self)@.len(),
        ensures
            final(self).inv(),
            final(self)@ == old(self)@.remove(index as int),
            r == old(self)@[index as int].price,
    {
        proof {
            lemma_occ_len_filled(self.buf@);
        }
        let ghost slots0 = self.buf@;
        let ghost k = occ_len(slots0);
        let removed = self.get(index).price;
        let mut next = index + 1;
        loop
            invariant
                index < k <= CAPACITY,
                index + 1 <= next <= k,
                self.buf@.len() == CAPACITY,
                slots0.len() == CAPACITY,
                forall|j: int|
                    0 <= j < slots0.len() ==> ((#[trigger] slots0[j]) is Filled <==> j < k),
                forall|j: int| 0 <= j < index ==> self.buf@[j] == slots0[j],
                forall|j: int| index <= j < next - 1 ==> self.buf@[j] == slots0[j + 1],
                forall|j: int| next - 1 <= j < CAPACITY ==> (#[trigger] self.buf@[j]) == slots0[j],
            ensures
                next == k,
                self.buf@.len() == CAPACITY,
                forall|j: int| 0 <= j < index ==> self.buf@[j] == slots0[j],
                forall|j: int| index <= j < next - 1 ==> self.buf@[j] == slots0[j + 1],
                forall|j: int| next - 1 <= j < CAPACITY ==> (#[trigger] self.buf@[j]) == slots0[j],
            decreases CAPACITY - next,
        {
            if next >= CAPACITY {
                break ;
            }
            let moved = self.buf[next];
            match moved {
                Slot::Empty => {
                    break ;
                },
                Slot::Filled(_) => {},
            }
            self.buf[next - 1] = moved;
            next = next + 1;
        }
        let ghost shifted = self.buf@;
        self.buf[next - 1] = Slot::Empty;
        proof {
            assert forall|j: int|
                0 <= j < self.buf@.len() implies ((#[trigger] self.buf@[j]) is Filled <==> j < k
                - 1) by {
                if j == k - 1 {
                } else if j < index {
                    assert(self.buf@[j] == shifted[j] && shifted[j] == slots0[j]);
                } else if j < k - 1 {
                    assert(self.buf@[j] == shifted[j] && shifted[j] == slots0[j + 1]);
                } else {
                    assert(self.buf@[j] == shifted[j] && shifted[j] == slots0[j]);
                }
            }
            lemma_occ_len_is(self.buf@, k - 1);
            levels_of(slots0).remove_ensures(index as int);
            assert(levels_of(self.buf@) =~= levels_of(slots0).remove(index as int));
        }
        removed
    }

    /// Place a level at a position, cascading every following occupied slot
    /// one position right; whatever is pushed past the last slot is dropped.
    pub fn insert(&mut self, index: usize, level: Level)
        requires
            old(self).inv(),
            index <= old(self)@.len(),
        ensures
            final(self).inv(),
            final(self)@ == insert_capped(old(self)@, index as int, level),
    {
        proof {
            lemma_occ_len_filled(self.buf@);
        }
        let ghost slots0 = self.buf@;
        let ghost k = occ_len(slots0);
        if index >= CAPACITY {
            proof {
                assert(levels_of(slots0) =~= insert_capped(levels_of(slots0), index as int, level));
            }
            return ;
        }
        let mut carry = Slot::Filled(level);
        let mut j = index;
        loop
            invariant
                index <= k <= CAPACITY,
                index < CAPACITY,
                index <= j <= CAPACITY,
                j <= k + 1,
                carry == (if j == index {
                    Slot::Filled(level)
                } else {
                    slots0[j - 1]
                }),
                self.buf@.len() == CAPACITY,
                slots0.len() == CAPACITY,
                forall|j2: int|
                    0 <= j2 < slots0.len() ==> ((#[trigger] slots0[j2]) is Filled <==> j2 < k),
                forall|m: int| 0 <= m < index ==> self.buf@[m] == slots0[m],
                forall|m: int|
                    index <= m < j ==> (#[trigger] self.buf@[m]) == (if m == index {
                        Slot::Filled(level)
                    } else {
                        slots0[m - 1]
                    }),
                forall|m: int| j <= m < CAPACITY ==> (#[trigger] self.buf@[m]) == slots0[m],
            ensures
                j == (if k + 1 <= CAPACITY {
                    k + 1
                } else {
                    CAPACITY as int
                }),
                self.buf@.len() == CAPACITY,
                forall|m: int| 0 <= m < index ==> self.buf@[m] == slots0[m],
                forall|m: int|
                    index <= m < j ==> (#[trigger] self.buf@[m]) == (if m == index {
                        Slot::Filled(level)
                    } else {
                        slots0[m - 1]
                    }),
                forall|m: int| j <= m < CAPACITY ==> (#[trigger] self.buf@[m]) == slots0[m],
            decreases CAPACITY - j,
        {
            match carry {
                Slot::Empty => {
                    break ;
                },
                Slot::Filled(_) => {},
            }
            if j >= CAPACITY {
                break ;
            }
            let tmp = self.buf[j];
            self.buf[j] = carry;
            carry = tmp;
            j = j + 1;
        }
        proof {
            let m = if k + 1 <= CAPACITY {
                k + 1
            } else {
                CAPACITY as int
            };
            assert forall|i: int|
                0 <= i < self.buf@.len() implies ((#[trigger] self.buf@[i]) is Filled <==> i
                < m) by {
                if i < index {
                    assert(self.buf@[i] == slots0[i]);
                } else if i < j {
                    if i > index {
                        assert(self.buf@[i] == slots0[i - 1]);
                    }
                } else {
                    assert(self.buf@[i] == slots0[i]);
                }
            }
            lemma_occ_len_is(self.buf@, m);
            levels_of(slots0).insert_ensures(index as int, level);
            assert(levels_of(self.buf@) =~= insert_capped(levels_of(slots0), index as int, level));
        }
    }

    /// Overwrite the size of the level at an occupied position, keeping its
    /// price.
    pub fn modify(&mut self, index: usize, size: u64)
        requires
            old(self).inv(),
            index < old(self)@.len(),
        ensures
            final(self).inv(),
            final(self)@ == old(self)@.update(
                index as int,
                Level { price: old(self)@[index as int].price, size },
            ),
    {
        proof {
            lemma_occ_len_filled(self.buf@);
        }
        let price = self.get(index).price;
        let ghost slots0 = self.buf@;
        self.buf[index] = Slot::Filled(Level { price, size });
        proof {
            lemma_levels_update(slots0, index as int, Level { price, size });
        }
    }
}

impl Default for Buffer {
    /// An all-empty buffer.
    fn default() -> (r: Self)
        ensures
            r.inv(),
            r@ == Seq::<Level>::empty(),
    {
        Buffer::new()
    }
}

/// The mathematical state of the fixed-capacity book: each side's levels
/// best-first, and the admission clock. The best of a side is its first
/// level, so it is not tracked separately.
#[verifier::ext_equal]
pub struct BookView {
    pub bids: Seq<Level>,
    pub asks: Seq<Level>,
    pub last_updated: u64,
    pub last_sequence: u64,
}

/// The book invariant: both sides well formed and within capacity.
pub open spec fn book_wf(v: BookView) -> bool {
    &&& depth_wf(v.bids, true)
    &&& depth_wf(v.asks, false)
    &&& v.bids.len() <= CAPACITY
    &&& v.asks.len() <= CAPACITY
}

/// The side's best level: the first, best-priced one.
pub open spec fn best_bid_of(v: BookView) -> Option<Level> {
    first_opt(v.bids)
}

/// The side's best level: the first, best-priced one.
pub open spec fn best_ask_of(v: BookView) -> Option<Level> {
    first_opt(v.asks)
}

/// A bounded upsert: the upserted side truncated to the capacity, dropping
/// whatever was pushed past the last slot.
pub open spec fn upsert_capped(s: Seq<Level>, lvl: Level, is_bid: bool) -> Seq<Level> {
    let w = upsert(s, lvl, is_bid);
    w.take(
        if w.len() <= CAPACITY {
            w.len() as int
        } else {
            CAPACITY as int
        },
    )
}

/// One side's depth update: `size == 0` removes the level at the event's
/// price, else the level is upserted (truncated to capacity).
pub open spec fn lvl2_side(s: Seq<Level>, e: Event, is_bid: bool) -> Seq<Level> {
    if e.size == 0 {
        remove_price(s, e.price)
    } else {
        upsert_capped(s, Level { price: e.price, size: e.size }, is_bid)
    }
}

/// Dispatch one admitted event to the side it names.
pub open spec fn dispatch_spec(v: BookView, e: Event) -> BookView {
    if e.is_trade {
        if e.is_buy {
            BookView { bids: apply_trade(v.bids, e.price, e.size), ..v }
        } else {
            BookView { asks: apply_trade(v.asks, e.price, e.size), ..v }
        }
    } else {
        if e.is_buy {
            BookView { bids: lvl2_side(v.bids, e, true), ..v }
        } else {
            BookView { asks: lvl2_side(v.asks, e, false), ..v }
        }
    }
}

/// What processing one event does to the book: a stale event is discarded
/// unchanged; an admitted event is dispatched and then stamps the admission
/// clock with its timestamp and sequence number.
pub open spec fn process_spec(v: BookView, e: Event) -> BookView {
    if is_stale(e, v.last_updated, v.last_sequence) {
        v
    } else {
        BookView { last_updated: e.timestamp, last_sequence: e.seq, ..dispatch_spec(v, e) }
    }
}

/// The empty book.
pub open spec fn empty_book() -> BookView {
    BookView {
        bids: Seq::empty(),
        asks: Seq::empty(),
        last_updated: 0,
        last_sequence: 0,
    }
}

/// The fixed-capacity book: one bounded buffer per side, bids sorted by
/// descending price, asks by ascending price.
pub struct Orderbook {
    bids: Buffer,
    asks: Buffer,
    last_updated: u64,
    last_sequence: u64,
}

impl View for Orderbook {
    type V = BookView;

    closed spec fn view(&self) -> BookView {
        BookView {
            bids: self.bids@,
            asks: self.asks@,
            last_updated: self.last_updated,
            last_sequence: self.last_sequence,
        }
    }
}

/// Apply one depth update to one side's buffer.
fn lvl2_apply(buf: &mut Buffer, e: Event, is_bid: bool)
    requires
        old(buf).inv(),
        depth_wf(old(buf)@, is_bid),
    ensures
        final(buf).inv(),
        final(buf)@ == lvl2_side(old(buf)@, e, is_bid),
        depth_wf(final(buf)@, is_bid),
{
    let ghost s0 = buf@;
    proof {
        buf.lemma_len();
    }
    if e.size == 0 {
        match buf.find_index(e.price, is_bid) {
            Ok(index) => {
                proof {
                    assert forall|j: int|
                        0 <= j < index implies (#[trigger] s0[j]).price != e.price by {
                        if s0[j].price == e.price {
                            crate::depth::lemma_price_index_unique(s0, is_bid, index as int, j);
                        }
                    }
                    lemma_remove_at(s0, e.price, index as int);
                    lemma_wf_remove(s0, is_bid, index as int);
                }
                buf.remove(index);
            },
            Err(_) => {
                proof {
                    lemma_remove_absent(s0, e.price);
                }
            },
        }
    } else {
        let lvl = Level { price: e.price, size: e.size };
        match buf.find_index(e.price, is_bid) {
            Ok(index) => {
                proof {
                    lemma_upsert_overwrite(s0, lvl, is_bid, index as int);
                    lemma_wf_update(s0, lvl, is_bid, index as int);
                    assert(upsert_capped(s0, lvl, is_bid) =~= s0.update(index as int, lvl));
                }
                buf.modify(index, e.size);
            },
            Err(index) => {
                proof {
                    lemma_boundary(s0, e.price, is_bid);
                    lemma_upsert_insert(s0, lvl, is_bid, index as int);
                    lemma_wf_insert(s0, lvl, is_bid, index as int);
                    let w = upsert(s0, lvl, is_bid);
                    lemma_wf_take(
                        w,
                        is_bid,
                        if w.len() <= CAPACITY {
                            w.len() as int
                        } else {
                            CAPACITY as int
                        },
                    );
                }
                buf.insert(index, lvl);
                proof {
                    assert(buf@ =~= upsert_capped(s0, lvl, is_bid));
                }
            },
        }
    }
}

/// Apply one trade to one side's buffer.
fn trade_apply(buf: &mut Buffer, e: Event, is_bid: bool)
    requires
        old(buf).inv(),
        depth_wf(old(buf)@, is_bid),
    ensures
        final(buf).inv(),
        final(buf)@ == apply_trade(old(buf)@, e.price, e.size),
        depth_wf(final(buf)@, is_bid),
{
    let ghost s0 = buf@;
    if let Ok(index) = buf.find_index(e.price, is_bid) {
        proof {
            assert forall|j: int| 0 <= j < index implies (#[trigger] s0[j]).price != e.price by {
                if s0[j].price == e.price {
                    crate::depth::lemma_price_index_unique(s0, is_bid, index as int, j);
                }
            }
            lemma_trade_at(s0, e.price, e.size, index as int);
        }
        let level = buf.get_mut(index);
        if e.size >= level.size {
            proof {
                lemma_wf_remove(s0, is_bid, index as int);
            }
            buf.remove(index);
        } else {
            level.size = level.size - e.size;
            proof {
                lemma_wf_update(
                    s0,
                    Level { price: e.price, size: (s0[index as int].size - e.size) as u64 },
                    is_bid,
                    index as int,
                );
            }
        }
    } else {
        proof {
            lemma_trade_absent(s0, e.price, e.size);
        }
    }
}

/// The first `n` levels of one side's buffer (all of them when fewer rest).
fn top_prefix(buf: &Buffer, n: usize) -> (r: Vec<Level>)
    requires
        buf.inv(),
    ensures
        r@ == top_levels(buf@, n as int),
{
    proof {
        lemma_occ_len_filled(buf.buf@);
    }
    let ghost v = buf@;
    let mut r: Vec<Level> = Vec::new();
    let mut i: usize = 0;
    while i < n && i < CAPACITY
        invariant_except_break
            buf.inv(),
            v == buf@,
            forall|j: int| 0 <= j < buf.buf@.len() ==> ((#[trigger] buf.buf@[j]) is Filled <==> j < v.len()),
            0 <= i <= v.len(),
            v.len() <= CAPACITY,
            i <= n,
            i <= CAPACITY,
            r@ == v.take(i as int),
        ensures
            r@ == top_levels(v, n as int),
        decreases n - i,
    {
        match buf.buf[i] {
            Slot::Empty => {
                proof {
                    assert(i >= v.len());
                    assert(r@ =~= top_levels(v, n as int));
                }
                break ;
            },
            Slot::Filled(l) => {
                r.push(l);
                proof {
                    assert(r@ =~= v.take(i + 1));
                }
            },
        }
        i = i + 1;
    }
    r
}

impl Orderbook {
    /// The book's representation invariant.
    pub closed spec fn wf(&self) -> bool {
        &&& self.bids.inv()
        &&& self.asks.inv()
        &&& book_wf(self@)
    }

    /// An empty book.
    pub fn new() -> (r: Self)
        ensures
            r@ == empty_book(),
            r.wf(),
            book_wf(r@),
    {
        Self { bids: Buffer::new(), asks: Buffer::new(), last_updated: 0, last_sequence: 0 }
    }

    /// Apply one event: discard it when stale, else dispatch it to the side
    /// it names and stamp the admission clock. A stale event provably leaves
    /// the book unchanged.
    pub fn process(&mut self, event: Event)
        requires
            old(self).wf(),
        ensures
            final(self).wf(),
            final(self)@ == process_spec(old(self)@, event),
            book_wf(final(self)@),
            is_stale(event, old(self)@.last_updated, old(self)@.last_sequence) ==> final(self)@
                == old(self)@,
    {
        if event.timestamp < self.last_updated || event.seq < self.last_sequence {
            return ;
        }
        match event.is_trade {
            true => self.process_trade(event),
            false => self.process_lvl2(event),
        };
        self.last_updated = event.timestamp;
        self.last_sequence = event.seq;
        proof {
            assert(self@ =~= process_spec(old(self)@, event));
        }
    }

    /// Apply one event and report the best pair when it changed: the new
    /// (best bid, best ask) when either differs from before the event, else
    /// nothing.
    pub fn process_stream_bbo(&mut self, event: Event) -> (r: Option<
        (Option<Level>, Option<Level>),
    >)
        requires
            old(self).wf(),
        ensures
            final(self).wf(),
            final(self)@ == process_spec(old(self)@, event),
            book_wf(final(self)@),
            r == if best_bid_of(final(self)@) == best_bid_of(old(self)@) && best_ask_of(
                final(self)@,
            ) == best_ask_of(old(self)@) {
                None::<(Option<Level>, Option<Level>)>
            } else {
                Some((best_bid_of(final(self)@), best_ask_of(final(self)@)))
            },
    {
        let old_bid = self.best_bid();
        let old_ask = self.best_ask();
        self.process(event);
        let new_bid = self.best_bid();
        let new_ask = self.best_ask();
        if !opt_level_eq(&old_bid, &new_bid) || !opt_level_eq(&old_ask, &new_ask) {
            Some((new_bid, new_ask))
        } else {
            None
        }
    }

    fn process_lvl2(&mut self, event: Event)
        requires
            old(self).wf(),
            !event.is_trade,
        ensures
            final(self).wf(),
            final(self)@ == dispatch_spec(old(self)@, event),
    {
        match event.is_buy {
            true => lvl2_apply(&mut self.bids, event, true),
            false => lvl2_apply(&mut self.asks, event, false),
        }
        proof {
            self.bids.lemma_len();
            self.asks.lemma_len();
            assert(self@ =~= dispatch_spec(old(self)@, event));
        }
    }

    fn process_trade(&mut self, event: Event)
        requires
            old(self).wf(),
            event.is_trade,
        ensures
            final(self).wf(),
            final(self)@ == dispatch_spec(old(self)@, event),
    {
        match event.is_buy {
            true => trade_apply(&mut self.bids, event, true),
            false => trade_apply(&mut self.asks, event, false),
        }
        proof {
            self.bids.lemma_len();
            self.asks.lemma_len();
            assert(self@ =~= dispatch_spec(old(self)@, event));
        }
    }

    /// The best bid: the first bid slot, which the sorted buffer keeps at the
    /// highest resting price.
    pub fn best_bid(&self) -> (r: Option<Level>)
        requires
            self.wf(),
        ensures
            r == best_bid_of(self@),
    {
        self.bids.first()
    }

    /// The best ask: the first ask slot, which the sorted buffer keeps at the
    /// lowest resting price.
    pub fn best_ask(&self) -> (r: Option<Level>)
        requires
            self.wf(),
        ensures
            r == best_ask_of(self@),
    {
        self.asks.first()
    }

    /// Up to `n` bid levels, best (highest price) first.
    pub fn top_bids(&self, n: usize) -> (r: Vec<Level>)
        requires
            self.wf(),
        ensures
            r@ == top_levels(self@.bids, n as int),
    {
        top_prefix(&self.bids, n)
    }

    /// Up to `n` ask levels, best (lowest price) first.
    pub fn top_asks(&self, n: usize) -> (r: Vec<Level>)
        requires
            self.wf(),
        ensures
            r@ == top_levels(self@.asks, n as int),
    {
        top_prefix(&self.asks, n)
    }

    /// The mean of the best bid and best ask prices, when both sides have a
    /// best level.
    pub fn midprice(&self) -> (r: Option<Ratio>)
        requires
            self.wf(),
        ensures
            r == midprice_opt(best_bid_of(self@), best_ask_of(self@)),
    {
        let bid = self.best_bid();
        let ask = self.best_ask();
        midprice_from_best(&bid, &ask)
    }

    /// The size-weighted cross average of the best pair, when both sides have
    /// a best level.
    pub fn weighted_midprice(&self) -> (r: Option<Ratio>)
        requires
            self.wf(),
            weighted_midprice_fits(best_bid_of(self@), best_ask_of(self@)),
        ensures
            r == weighted_midprice_opt(best_bid_of(self@), best_ask_of(self@)),
    {
        let bid = self.best_bid();
        let ask = self.best_ask();
        weighted_midprice_from_best(&bid, &ask)
    }
}

impl Default for Orderbook {
    /// An empty book.
    fn default() -> (r: Self)
        ensures
            r@ == empty_book(),
            r.wf(),
            book_wf(r@),
    {
        Orderbook::new()
    }
}

/// Sortedness law: every depth prefix of a well-formed book is strictly
/// ordered best-to-worst — bids by descending price, asks by ascending price —
/// with no duplicate prices and no empty levels.
pub proof fn lemma_top_sorted(v: BookView, n: int)
    requires
        book_wf(v),
        n >= 0,
    ensures
        depth_wf(top_levels(v.bids, n), true),
        depth_wf(top_levels(v.asks, n), false),
{
    lemma_wf_take(
        v.bids,
        true,
        if n <= v.bids.len() {
            n
        } else {
            v.bids.len() as int
        },
    );
    lemma_wf_take(
        v.asks,
        false,
        if n <= v.asks.len() {
            n
        } else {
            v.asks.len() as int
        },
    );
}

/// Best-of consistency law: the best of a side is present exactly when a
/// top-of-depth query returns a level, and then equals that level exactly,
/// since this variant derives the best from the first slot.
pub proof fn lemma_best_consistent(v: BookView)
    requires
        book_wf(v),
    ensures
        best_bid_of(v) is Some <==> top_levels(v.bids, 1).len() == 1,
        best_bid_of(v) is Some ==> best_bid_of(v).unwrap() == top_levels(v.bids, 1)[0],
        best_ask_of(v) is Some <==> top_levels(v.asks, 1).len() == 1,
        best_ask_of(v) is Some ==> best_ask_of(v).unwrap() == top_levels(v.asks, 1)[0],
{
}

/// Removal idempotence law: processing the same price-removal event twice
/// leaves the book exactly as processing it once — the second application is
/// a no-op.
pub proof fn lemma_removal_idempotent(v: BookView, e: Event)
    requires
        book_wf(v),
        !e.is_trade,
        e.size == 0,
    ensures
        process_spec(process_spec(v, e), e) == process_spec(v, e),
{
    if !is_stale(e, v.last_updated, v.last_sequence) {
        let v1 = process_spec(v, e);
        assert(!is_stale(e, v1.last_updated, v1.last_sequence));
        if e.is_buy {
            lemma_remove_price_gone(v.bids, e.price, true);
            lemma_remove_absent(v1.bids, e.price);
        } else {
            lemma_remove_price_gone(v.asks, e.price, false);
            lemma_remove_absent(v1.asks, e.price);
        }
        assert(process_spec(v1, e) =~= v1);
    }
}

} // verus!
