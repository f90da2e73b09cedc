//! The mathematical model of one side's depth: a sequence of levels ordered
//! best-to-worst, and the operations the event handlers perform on it.

use vstd::prelude::*;

use crate::level::Level;

verus! {

/// Whether price `a` is strictly better than price `b` on the given side:
/// higher for bids, lower for asks.
pub open spec fn better(a: u64, b: u64, is_bid: bool) -> bool {
    if is_bid {
        a > b
    } else {
        a < b
    }
}

/// A side's depth is well formed when its levels are strictly ordered
/// best-to-worst (so prices are distinct) and every resting size is positive.
pub open spec fn depth_wf(s: Seq<Level>, is_bid: bool) -> bool {
    &&& forall|i: int, j: int|
        0 <= i < j < s.len() ==> better(#[trigger] s[i].price, #[trigger] s[j].price, is_bid)
    &&& forall|i: int| 0 <= i < s.len() ==> (#[trigger] s[i]).size > 0
}

/// Whether some level rests at price `p`.
pub open spec fn has_price(s: Seq<Level>, p: u64) -> bool {
    exists|i: int| 0 <= i < s.len() && (#[trigger] s[i]).price == p
}

/// The size resting at price `p`: that of the first level with this price.
pub open spec fn size_at(s: Seq<Level>, p: u64) -> u64
    decreases s.len(),
{
    if s.len() == 0 {
        0
    } else if s[0].price == p {
        s[0].size
    } else {
        size_at(s.drop_first(), p)
    }
}

/// A depth update's upsert: overwrite the level at the same price, or insert
/// the new level at its ordered position.
pub open spec fn upsert(s: Seq<Level>, lvl: Level, is_bid: bool) -> Seq<Level>
    decreases s.len(),
{
    if s.len() == 0 {
        seq![lvl]
    } else if better(s[0].price, lvl.price, is_bid) {
        seq![s[0]] + upsert(s.drop_first(), lvl, is_bid)
    } else if s[0].price == lvl.price {
        seq![lvl] + s.drop_first()
    } else {
        seq![lvl] + s
    }
}

/// Remove the level at price `p`; a no-op when no level rests there.
pub open spec fn remove_price(s: Seq<Level>, p: u64) -> Seq<Level>
    decreases s.len(),
{
    if s.len() == 0 {
        s
    } else if s[0].price == p {
        s.drop_first()
    } else {
        seq![s[0]] + remove_price(s.drop_first(), p)
    }
}

/// Apply a trade of `sz` against the level at price `p`: a no-op when absent;
/// else remove the level when `sz` covers its size, else reduce it in place.
pub open spec fn apply_trade(s: Seq<Level>, p: u64, sz: u64) -> Seq<Level>
    decreases s.len(),
{
    if s.len() == 0 {
        s
    } else if s[0].price == p {
        if sz >= s[0].size {
            s.drop_first()
        } else {
            seq![Level { price: p, size: (s[0].size - sz) as u64 }] + s.drop_first()
        }
    } else {
        seq![s[0]] + apply_trade(s.drop_first(), p, sz)
    }
}

/// Whether a trade of `sz` at price `p` exhausts (removes) a resting level.
pub open spec fn trade_exhausts(s: Seq<Level>, p: u64, sz: u64) -> bool {
    has_price(s, p) && sz >= size_at(s, p)
}

/// The first `n` levels of a side stored best-first (all of them when fewer
/// rest): what a top-`n` query returns.
pub open spec fn top_levels(s: Seq<Level>, n: int) -> Seq<Level> {
    s.take(
        if n <= s.len() {
            n
        } else {
            s.len() as int
        },
    )
}

/// The best level of a side stored best-first: its first element, if any.
pub open spec fn first_opt(s: Seq<Level>) -> Option<Level> {
    if s.len() == 0 {
        None
    } else {
        Some(s[0])
    }
}

/// The index of the level resting at price `p`, unique in a well-formed side.
pub open spec fn index_of_price(s: Seq<Level>, p: u64) -> int {
    choose|i: int| 0 <= i < s.len() && (#[trigger] s[i]).price == p
}

/// The number of leading levels whose price is strictly better than `p`: in a
/// well-formed side, the position where `p` rests or would be inserted.
pub open spec fn boundary(s: Seq<Level>, p: u64, is_bid: bool) -> int
    decreases s.len(),
{
    if s.len() == 0 {
        0
    } else if better(s[0].price, p, is_bid) {
        1 + boundary(s.drop_first(), p, is_bid)
    } else {
        0
    }
}

/// In a well-formed side, `boundary` separates the strictly better prices
/// from the rest.
pub proof fn lemma_boundary(s: Seq<Level>, p: u64, is_bid: bool)
    requires
        depth_wf(s, is_bid),
    ensures
        0 <= boundary(s, p, is_bid) <= s.len(),
        forall|j: int|
            0 <= j < boundary(s, p, is_bid) ==> better((#[trigger] s[j]).price, p, is_bid),
        boundary(s, p, is_bid) < s.len() ==> !better(
            s[boundary(s, p, is_bid)].price,
            p,
            is_bid,
        ),
    decreases s.len(),
{
    if s.len() > 0 && better(s[0].price, p, is_bid) {
        let t = s.drop_first();
        assert(depth_wf(t, is_bid)) by {
            assert(forall|i: int, j: int|
                0 <= i < j < t.len() ==> better(
                    (#[trigger] t[i]).price,
                    (#[trigger] t[j]).price,
                    is_bid,
                ));
        }
        lemma_boundary(t, p, is_bid);
        assert forall|j: int| 0 <= j < boundary(s, p, is_bid) implies better(
            (#[trigger] s[j]).price,
            p,
            is_bid,
        ) by {
            if j > 0 {
                assert(s[j] == t[j - 1]);
            }
        }
    }
}

/// The boundary is the unique index splitting the strictly better prices
/// from the rest.
pub proof fn lemma_boundary_unique(s: Seq<Level>, p: u64, is_bid: bool, i: int)
    requires
        depth_wf(s, is_bid),
        0 <= i <= s.len(),
        forall|j: int| 0 <= j < i ==> better((#[trigger] s[j]).price, p, is_bid),
        i < s.len() ==> !better(s[i].price, p, is_bid),
    ensures
        i == boundary(s, p, is_bid),
{
    lemma_boundary(s, p, is_bid);
    let b = boundary(s, p, is_bid);
    if i < b {
        assert(better(s[i].price, p, is_bid));
    }
    if b < i {
        assert(better(s[b].price, p, is_bid));
        assert(!better(s[b].price, p, is_bid));
    }
}

/// When the level at the boundary of `p` (if any) does not rest at `p`, no
/// level does.
pub proof fn lemma_absent_at_boundary(s: Seq<Level>, p: u64, is_bid: bool, i: int)
    requires
        depth_wf(s, is_bid),
        i == boundary(s, p, is_bid),
        i < s.len() ==> s[i].price != p,
    ensures
        !has_price(s, p),
{
    lemma_boundary(s, p, is_bid);
    assert forall|j: int| 0 <= j < s.len() implies (#[trigger] s[j]).price != p by {
        if j > i {
            assert(better(s[i].price, s[j].price, is_bid));
            assert(!better(s[i].price, p, is_bid));
        }
    }
}

/// A price rests in a non-empty side exactly when it is the head's price or
/// rests in the tail.
pub proof fn lemma_has_price_step(s: Seq<Level>, p: u64)
    requires
        s.len() > 0,
    ensures
        has_price(s, p) <==> (s[0].price == p || has_price(s.drop_first(), p)),
{
    if has_price(s, p) && s[0].price != p {
        let i = choose|i: int| 0 <= i < s.len() && s[i].price == p;
        assert(s.drop_first()[i - 1].price == p);
    }
    if has_price(s.drop_first(), p) {
        let i = choose|i: int| 0 <= i < s.drop_first().len() && s.drop_first()[i].price == p;
        assert(s[i + 1].price == p);
    }
}

/// Upserting a level whose price already rests at index `i` overwrites that
/// index, where `i` is the first position not strictly better than the level.
pub proof fn lemma_upsert_overwrite(s: Seq<Level>, lvl: Level, is_bid: bool, i: int)
    requires
        0 <= i < s.len(),
        s[i].price == lvl.price,
        forall|j: int| 0 <= j < i ==> better((#[trigger] s[j]).price, lvl.price, is_bid),
    ensures
        upsert(s, lvl, is_bid) == s.update(i, lvl),
    decreases s.len(),
{
    if i == 0 {
        assert(!better(s[0].price, lvl.price, is_bid));
        assert(upsert(s, lvl, is_bid) =~= s.update(0, lvl));
    } else {
        lemma_upsert_overwrite(s.drop_first(), lvl, is_bid, i - 1);
        assert(upsert(s, lvl, is_bid) =~= s.update(i, lvl));
    }
}

/// Upserting a level whose price is absent inserts it at index `i`, the
/// boundary between strictly better and strictly worse prices.
pub proof fn lemma_upsert_insert(s: Seq<Level>, lvl: Level, is_bid: bool, i: int)
    requires
        0 <= i <= s.len(),
        forall|j: int| 0 <= j < i ==> better((#[trigger] s[j]).price, lvl.price, is_bid),
        i < s.len() ==> better(lvl.price, s[i].price, is_bid),
    ensures
        upsert(s, lvl, is_bid) == s.insert(i, lvl),
    decreases s.len(),
{
    if i == 0 {
        if s.len() == 0 {
            assert(upsert(s, lvl, is_bid) =~= s.insert(0, lvl));
        } else {
            assert(!better(s[0].price, lvl.price, is_bid));
            assert(s[0].price != lvl.price);
            assert(upsert(s, lvl, is_bid) =~= s.insert(0, lvl));
        }
    } else {
        lemma_upsert_insert(s.drop_first(), lvl, is_bid, i - 1);
        assert(upsert(s, lvl, is_bid) =~= s.insert(i, lvl));
    }
}

/// Removing a price that rests first at index `i` removes exactly that index.
pub proof fn lemma_remove_at(s: Seq<Level>, p: u64, i: int)
    requires
        0 <= i < s.len(),
        s[i].price == p,
        forall|j: int| 0 <= j < i ==> (#[trigger] s[j]).price != p,
    ensures
        remove_price(s, p) == s.remove(i),
        has_price(s, p),
    decreases s.len(),
{
    if i == 0 {
        assert(remove_price(s, p) =~= s.remove(0));
    } else {
        lemma_remove_at(s.drop_first(), p, i - 1);
        assert(remove_price(s, p) =~= s.remove(i));
    }
}

/// Removing an absent price changes nothing.
pub proof fn lemma_remove_absent(s: Seq<Level>, p: u64)
    requires
        !has_price(s, p),
    ensures
        remove_price(s, p) == s,
    decreases s.len(),
{
    if s.len() == 0 {
        assert(remove_price(s, p) =~= s);
    } else {
        assert(s[0].price != p);
        lemma_has_price_step(s, p);
        lemma_remove_absent(s.drop_first(), p);
        assert(remove_price(s, p) =~= s);
    }
}

/// A trade against the level resting first at index `i` removes that index
/// when its size is covered, and otherwise reduces that index in place,
/// leaving every other level untouched.
pub proof fn lemma_trade_at(s: Seq<Level>, p: u64, sz: u64, i: int)
    requires
        0 <= i < s.len(),
        s[i].price == p,
        forall|j: int| 0 <= j < i ==> (#[trigger] s[j]).price != p,
    ensures
        has_price(s, p),
        size_at(s, p) == s[i].size,
        sz >= s[i].size ==> apply_trade(s, p, sz) == s.remove(i),
        sz < s[i].size ==> apply_trade(s, p, sz) == s.update(
            i,
            Level { price: p, size: (s[i].size - sz) as u64 },
        ),
    decreases s.len(),
{
    if i == 0 {
        if sz >= s[0].size {
            assert(apply_trade(s, p, sz) =~= s.remove(0));
        } else {
            assert(apply_trade(s, p, sz) =~= s.update(
                0,
                Level { price: p, size: (s[0].size - sz) as u64 },
            ));
        }
    } else {
        lemma_trade_at(s.drop_first(), p, sz, i - 1);
        if sz >= s[i].size {
            assert(apply_trade(s, p, sz) =~= s.remove(i));
        } else {
            assert(apply_trade(s, p, sz) =~= s.update(
                i,
                Level { price: p, size: (s[i].size - sz) as u64 },
            ));
        }
    }
}

/// A trade at an absent price changes nothing.
pub proof fn lemma_trade_absent(s: Seq<Level>, p: u64, sz: u64)
    requires
        !has_price(s, p),
    ensures
        apply_trade(s, p, sz) == s,
        !trade_exhausts(s, p, sz),
    decreases s.len(),
{
    if s.len() == 0 {
        assert(apply_trade(s, p, sz) =~= s);
    } else {
        assert(s[0].price != p);
        lemma_has_price_step(s, p);
        lemma_trade_absent(s.drop_first(), p, sz);
        assert(apply_trade(s, p, sz) =~= s);
    }
}

/// In a well-formed side, at most one level rests at each price.
pub proof fn lemma_price_index_unique(s: Seq<Level>, is_bid: bool, i: int, j: int)
    requires
        depth_wf(s, is_bid),
        0 <= i < s.len(),
        0 <= j < s.len(),
        s[i].price == s[j].price,
    ensures
        i == j,
{
}

/// Inserting a positive-size level at the boundary between strictly better
/// and strictly worse prices keeps a side well formed.
pub proof fn lemma_wf_insert(s: Seq<Level>, lvl: Level, is_bid: bool, i: int)
    requires
        depth_wf(s, is_bid),
        lvl.size > 0,
        0 <= i <= s.len(),
        forall|j: int| 0 <= j < i ==> better((#[trigger] s[j]).price, lvl.price, is_bid),
        i < s.len() ==> better(lvl.price, s[i].price, is_bid),
    ensures
        depth_wf(s.insert(i, lvl), is_bid),
{
    s.insert_ensures(i, lvl);
    let t = s.insert(i, lvl);
    assert forall|a: int, b: int| 0 <= a < b < t.len() implies better(
        #[trigger] t[a].price,
        #[trigger] t[b].price,
        is_bid,
    ) by {
        if a < i && b > i {
            assert(t[a] == s[a]);
            assert(t[b] == s[b - 1]);
            if i < s.len() {
                assert(better(s[i].price, s[b - 1].price, is_bid) || i == b - 1);
            }
        }
    }
}

/// Overwriting one level with another of the same price and positive size
/// keeps a side well formed.
pub proof fn lemma_wf_update(s: Seq<Level>, lvl: Level, is_bid: bool, i: int)
    requires
        depth_wf(s, is_bid),
        lvl.size > 0,
        0 <= i < s.len(),
        s[i].price == lvl.price,
    ensures
        depth_wf(s.update(i, lvl), is_bid),
{
}

/// After a removal, no level rests at the removed price.
pub proof fn lemma_remove_price_gone(s: Seq<Level>, p: u64, is_bid: bool)
    requires
        depth_wf(s, is_bid),
    ensures
        !has_price(remove_price(s, p), p),
{
    if has_price(s, p) {
        let i = index_of_price(s, p);
        assert forall|j: int| 0 <= j < i implies (#[trigger] s[j]).price != p by {
            if s[j].price == p {
                lemma_price_index_unique(s, is_bid, i, j);
            }
        }
        lemma_remove_at(s, p, i);
        s.remove_ensures(i);
        let t = s.remove(i);
        assert forall|j: int| 0 <= j < t.len() implies (#[trigger] t[j]).price != p by {
            if j < i {
                if s[j].price == p {
                    lemma_price_index_unique(s, is_bid, i, j);
                }
            } else {
                if s[j + 1].price == p {
                    lemma_price_index_unique(s, is_bid, i, j + 1);
                }
            }
        }
    } else {
        lemma_remove_absent(s, p);
    }
}

/// Trade exhaustion law: against a well-formed side, a trade of `sz` at a
/// resting price `p` removes that level when `sz` covers its resting size,
/// and otherwise reduces exactly that level by `sz`, leaving every other
/// level untouched.
pub proof fn lemma_trade_exhaustion(s: Seq<Level>, p: u64, sz: u64, is_bid: bool)
    requires
        depth_wf(s, is_bid),
        has_price(s, p),
    ensures
        0 <= index_of_price(s, p) < s.len(),
        s[index_of_price(s, p)].price == p,
        size_at(s, p) == s[index_of_price(s, p)].size,
        sz >= size_at(s, p) ==> apply_trade(s, p, sz) == s.remove(index_of_price(s, p)),
        sz < size_at(s, p) ==> apply_trade(s, p, sz) == s.update(
            index_of_price(s, p),
            Level { price: p, size: (size_at(s, p) - sz) as u64 },
        ),
{
    let i = index_of_price(s, p);
    assert(0 <= i < s.len() && s[i].price == p);
    assert forall|j: int| 0 <= j < i implies (#[trigger] s[j]).price != p by {
        if s[j].price == p {
            lemma_price_index_unique(s, is_bid, i, j);
        }
    }
    lemma_trade_at(s, p, sz, i);
}

/// A prefix of a well-formed side is well formed.
pub proof fn lemma_wf_take(s: Seq<Level>, is_bid: bool, n: int)
    requires
        depth_wf(s, is_bid),
        0 <= n <= s.len(),
    ensures
        depth_wf(s.take(n), is_bid),
{
}

/// Removing one level keeps a side well formed.
pub proof fn lemma_wf_remove(s: Seq<Level>, is_bid: bool, i: int)
    requires
        depth_wf(s, is_bid),
        0 <= i < s.len(),
    ensures
        depth_wf(s.remove(i), is_bid),
{
    s.remove_ensures(i);
    let t = s.remove(i);
    assert forall|a: int, b: int| 0 <= a < b < t.len() implies better(
        #[trigger] t[a].price,
        #[trigger] t[b].price,
        is_bid,
    ) by {
        assert(t[a] == if a < i {
            s[a]
        } else {
            s[a + 1]
        });
        assert(t[b] == if b < i {
            s[b]
        } else {
            s[b + 1]
        });
    }
    assert forall|a: int| 0 <= a < t.len() implies (#[trigger] t[a]).size > 0 by {
        assert(t[a] == if a < i {
            s[a]
        } else {
            s[a + 1]
        });
    }
}

} // verus!
