//! The book store: two ordered sides of (price, size) levels, mutated by
//! per-price deltas and read through a ranked top-of-book view.
//!
//! Prices and sizes are fixed-point integers (see `num`): each unit is
//! one hundred-millionth, so every stored value is exact and totally
//! ordered. A side is a vector of levels kept strictly ascending by
//! price; its abstract state is the finite map from price to size.

use vstd::prelude::*;

verus! {

/// One resting price level, or one delta instruction.
///
/// As a stored level its size is always positive; as a delta a size of
/// zero means "remove the level at this price".
#[derive(PartialEq, Eq, Structural, Clone, Copy, Debug)]
pub struct Level {
    /// Fixed-point price, the sort key.
    pub price: u64,
    /// Fixed-point resting quantity.
    pub size: u64,
}

/// Which side of the book an operation addresses.
#[derive(PartialEq, Eq, Structural, Clone, Copy, Debug)]
pub enum Side {
    /// Buy side: displayed best (highest) price first.
    Bid,
    /// Sell side: displayed best (lowest) price first.
    Ask,
}

/// Prices are strictly ascending: sorted, and no price appears twice.
pub open spec fn sorted_strict(s: Seq<Level>) -> bool {
    forall|i: int, j: int| 0 <= i < j < s.len() ==> s[i].price < s[j].price
}

/// Every stored level has a positive size.
pub open spec fn positive_sizes(s: Seq<Level>) -> bool {
    forall|i: int| 0 <= i < s.len() ==> s[i].size > 0
}

/// Well-formedness of one side.
pub open spec fn wf_side(s: Seq<Level>) -> bool {
    sorted_strict(s) && positive_sizes(s)
}

/// Some stored level has this price.
pub open spec fn has_price(s: Seq<Level>, p: int) -> bool {
    exists|i: int| 0 <= i < s.len() && s[i].price == p
}

/// The index of the level with this price (meaningful when one exists).
pub open spec fn index_of_price(s: Seq<Level>, p: int) -> int {
    choose|i: int| 0 <= i < s.len() && s[i].price == p
}

/// The stored size at this price (meaningful when the price is present).
pub open spec fn size_at(s: Seq<Level>, p: int) -> int {
    s[index_of_price(s, p)].size as int
}

/// The abstract state of one side: the finite map from price to size.
pub open spec fn side_map(s: Seq<Level>) -> Map<int, int> {
    Map::new(|p: int| has_price(s, p), |p: int| size_at(s, p))
}

/// The effect of one delta on the abstract state: size zero removes the
/// price, any other size inserts or overwrites it.
pub open spec fn delta_step(m: Map<int, int>, d: Level) -> Map<int, int> {
    if d.size == 0 {
        m.remove(d.price as int)
    } else {
        m.insert(d.price as int, d.size as int)
    }
}

/// The effect of a whole batch of deltas, applied in order.
pub open spec fn apply_ds(m: Map<int, int>, ds: Seq<Level>) -> Map<int, int>
    decreases ds.len(),
{
    if ds.len() == 0 {
        m
    } else {
        delta_step(apply_ds(m, ds.drop_last()), ds.last())
    }
}

/// The effect of loading a batch of snapshot entries into an empty side:
/// a zero-size entry is skipped (never inserted, and it removes nothing).
pub open spec fn load_ds(m: Map<int, int>, ds: Seq<Level>) -> Map<int, int>
    decreases ds.len(),
{
    if ds.len() == 0 {
        m
    } else if ds.last().size == 0 {
        load_ds(m, ds.drop_last())
    } else {
        load_ds(m, ds.drop_last()).insert(ds.last().price as int, ds.last().size as int)
    }
}

/// The last delta in the batch that writes this price, if any.
pub open spec fn last_write(ds: Seq<Level>, p: int) -> Option<int>
    decreases ds.len(),
{
    if ds.len() == 0 {
        Option::None
    } else if ds.last().price == p {
        Option::Some(ds.last().size as int)
    } else {
        last_write(ds.drop_last(), p)
    }
}

/// At each price, the effect of a batch is decided by the last delta in
/// the batch that writes that price: absent, the price keeps its prior
/// state; a zero write removes it; any other write sets its size.
pub proof fn lemma_apply_ds_pointwise(m: Map<int, int>, ds: Seq<Level>, p: int)
    ensures
        match last_write(ds, p) {
            Option::None => apply_ds(m, ds).contains_key(p) == m.contains_key(p) && (
            m.contains_key(p) ==> apply_ds(m, ds)[p] == m[p]),
            Option::Some(s) => if s == 0 {
                !apply_ds(m, ds).contains_key(p)
            } else {
                apply_ds(m, ds).contains_key(p) && apply_ds(m, ds)[p] == s
            },
        },
    decreases ds.len(),
{
    if ds.len() > 0 {
        lemma_apply_ds_pointwise(m, ds.drop_last(), p);
    }
}

/// Law: each delta being an overwrite or a delete keyed by price,
/// applying the same batch of deltas twice yields the same final levels
/// as applying it once.
pub proof fn lemma_apply_deltas_idempotent(m: Map<int, int>, ds: Seq<Level>)
    ensures
        apply_ds(apply_ds(m, ds), ds) == apply_ds(m, ds),
{
    let m1 = apply_ds(m, ds);
    let m2 = apply_ds(m1, ds);
    assert forall|p: int| m2.contains_key(p) == m1.contains_key(p) && (m1.contains_key(p)
        ==> m2[p] == m1[p]) by {
        lemma_apply_ds_pointwise(m, ds, p);
        lemma_apply_ds_pointwise(m1, ds, p);
    }
    assert forall|p: int| #[trigger] m2.contains_key(p) implies m1.contains_key(p) && m2[p]
        == m1[p] by {
        lemma_apply_ds_pointwise(m, ds, p);
        lemma_apply_ds_pointwise(m1, ds, p);
    }
    assert forall|p: int| #[trigger] m1.contains_key(p) implies m2.contains_key(p) by {
        lemma_apply_ds_pointwise(m, ds, p);
        lemma_apply_ds_pointwise(m1, ds, p);
    }
    assert(m2 =~= m1);
}

/// No two deltas in the batch address the same price.
pub open spec fn distinct_prices(ds: Seq<Level>) -> bool {
    forall|i: int, j: int| 0 <= i < j < ds.len() ==> ds[i].price != ds[j].price
}

/// Under distinct prices, the last write at an element's price is that
/// element's size.
proof fn lemma_last_write_of_element(ds: Seq<Level>, i: int)
    requires
        distinct_prices(ds),
        0 <= i < ds.len(),
    ensures
        last_write(ds, ds[i].price as int) == Option::Some(ds[i].size as int),
    decreases ds.len(),
{
    if i == ds.len() - 1 {
    } else {
        assert(ds[i].price != ds[ds.len() - 1].price);
        let t = ds.drop_last();
        assert(t[i] == ds[i]);
        assert(distinct_prices(t));
        lemma_last_write_of_element(t, i);
    }
}

/// The batch writes nothing at a price exactly when no delta addresses
/// that price.
proof fn lemma_last_write_none(ds: Seq<Level>, p: int)
    ensures
        (last_write(ds, p) is None) <==> (forall|i: int| 0 <= i < ds.len() ==> ds[i].price != p),
    decreases ds.len(),
{
    if ds.len() > 0 {
        let t = ds.drop_last();
        lemma_last_write_none(t, p);
        assert(forall|i: int| 0 <= i < t.len() ==> t[i] == ds[i]);
        if ds.last().price == p {
            assert(ds[ds.len() - 1].price == p);
        }
    }
}

/// When the batch writes something at a price, some delta carries that
/// price and that written size.
proof fn lemma_last_write_some(ds: Seq<Level>, p: int)
    requires
        last_write(ds, p) is Some,
    ensures
        exists|i: int|
            0 <= i < ds.len() && ds[i].price == p && ds[i].size as int == last_write(
                ds,
                p,
            ).unwrap(),
    decreases ds.len(),
{
    if ds.len() == 0 {
    } else if ds.last().price == p {
        assert(ds[ds.len() - 1].price == p && ds[ds.len() - 1].size as int == last_write(
            ds,
            p,
        ).unwrap());
    } else {
        let t = ds.drop_last();
        lemma_last_write_some(t, p);
        let i = choose|i: int|
            0 <= i < t.len() && t[i].price == p && t[i].size as int == last_write(t, p).unwrap();
        assert(ds[i].price == p && ds[i].size as int == last_write(ds, p).unwrap());
    }
}

/// Law: each delta is a pure overwrite or delete keyed by its price, so
/// as long as no price appears twice within one batch, reordering the
/// batch does not change its effect on a side.
pub proof fn lemma_apply_deltas_order_independent(m: Map<int, int>, ds1: Seq<Level>, ds2: Seq<Level>)
    requires
        ds1.to_multiset() == ds2.to_multiset(),
        distinct_prices(ds1),
        distinct_prices(ds2),
    ensures
        apply_ds(m, ds1) == apply_ds(m, ds2),
{
    ds1.to_multiset_ensures();
    ds2.to_multiset_ensures();
    assert forall|p: int| #[trigger] last_write(ds1, p) == last_write(ds2, p) by {
        lemma_last_write_none(ds1, p);
        lemma_last_write_none(ds2, p);
        if last_write(ds1, p) is Some {
            lemma_last_write_some(ds1, p);
            let i = choose|i: int|
                0 <= i < ds1.len() && ds1[i].price == p && ds1[i].size as int == last_write(
                    ds1,
                    p,
                ).unwrap();
            let l = ds1[i];
            assert(ds1.contains(l));
            assert(ds2.to_multiset().count(l) > 0);
            assert(ds2.contains(l));
            let j = choose|j: int| 0 <= j < ds2.len() && ds2[j] == l;
            lemma_last_write_of_element(ds1, i);
            lemma_last_write_of_element(ds2, j);
        } else if last_write(ds2, p) is Some {
            lemma_last_write_some(ds2, p);
            let j = choose|j: int|
                0 <= j < ds2.len() && ds2[j].price == p && ds2[j].size as int == last_write(
                    ds2,
                    p,
                ).unwrap();
            let l = ds2[j];
            assert(ds2.contains(l));
            assert(ds1.to_multiset().count(l) > 0);
            assert(ds1.contains(l));
            let i = choose|i: int| 0 <= i < ds1.len() && ds1[i] == l;
            assert(ds1[i].price == p);
        }
    }
    let a1 = apply_ds(m, ds1);
    let a2 = apply_ds(m, ds2);
    assert forall|p: int| #[trigger] a1.contains_key(p) <==> a2.contains_key(p) by {
        lemma_apply_ds_pointwise(m, ds1, p);
        lemma_apply_ds_pointwise(m, ds2, p);
        assert(last_write(ds1, p) == last_write(ds2, p));
    }
    assert forall|p: int| a1.contains_key(p) implies a1[p] == a2[p] by {
        lemma_apply_ds_pointwise(m, ds1, p);
        lemma_apply_ds_pointwise(m, ds2, p);
        assert(last_write(ds1, p) == last_write(ds2, p));
    }
    assert(a1 =~= a2);
}

/// In a strictly sorted side no price appears at two indices.
pub proof fn lemma_unique_price(s: Seq<Level>, i: int, j: int)
    requires
        sorted_strict(s),
        0 <= i < s.len(),
        0 <= j < s.len(),
        s[i].price == s[j].price,
    ensures
        i == j,
{
}

/// In a strictly sorted side the chosen index of a present price is the
/// index where it stands.
pub proof fn lemma_index_of_price(s: Seq<Level>, i: int)
    requires
        sorted_strict(s),
        0 <= i < s.len(),
    ensures
        has_price(s, s[i].price as int),
        index_of_price(s, s[i].price as int) == i,
        size_at(s, s[i].price as int) == s[i].size as int,
{
    assert(has_price(s, s[i].price as int));
    let j = index_of_price(s, s[i].price as int);
    lemma_unique_price(s, i, j);
}

/// First index whose price is at least the given price.
fn find_from(side: &Vec<Level>, price: u64) -> (r: usize)
    requires
        sorted_strict(side@),
    ensures
        r <= side@.len(),
        forall|i: int| 0 <= i < r ==> side@[i].price < price,
        forall|i: int| r <= i < side@.len() ==> side@[i].price >= price,
{
    let n = side.len();
    let mut k: usize = 0;
    while k < n
        invariant
            n == side@.len(),
            k <= n,
            sorted_strict(side@),
            forall|i: int| 0 <= i < k ==> side@[i].price < price,
        decreases n - k,
    {
        if side[k].price >= price {
            assert forall|i: int| k <= i < side@.len() implies side@[i].price >= price by {
                if i > k {
                    assert(side@[k as int].price < side@[i].price);
                }
            }
            return k;
        }
        k += 1;
    }
    k
}

/// Inserting a level at the position that keeps the side sorted changes
/// the abstract state by one map insertion.
proof fn lemma_side_map_insert_at(s: Seq<Level>, pos: int, l: Level)
    requires
        wf_side(s),
        l.size > 0,
        0 <= pos <= s.len(),
        forall|i: int| 0 <= i < pos ==> s[i].price < l.price,
        forall|i: int| pos <= i < s.len() ==> s[i].price > l.price,
    ensures
        wf_side(s.insert(pos, l)),
        side_map(s.insert(pos, l)) == side_map(s).insert(l.price as int, l.size as int),
{
    let t = s.insert(pos, l);
    assert forall|i: int, j: int| 0 <= i < j < t.len() implies t[i].price < t[j].price by {
        if j < pos {
        } else if i >= pos + 1 {
            assert(t[i] == s[i - 1]);
            assert(t[j] == s[j - 1]);
        } else if i < pos && j == pos {
        } else if i == pos && j > pos {
            assert(t[j] == s[j - 1]);
        } else if i < pos && j > pos {
            assert(t[i] == s[i]);
            assert(t[j] == s[j - 1]);
            assert(s[i].price < l.price);
            assert(s[j - 1].price > l.price);
        }
    }
    assert(positive_sizes(t));
    assert forall|p: int| #[trigger] side_map(t).contains_key(p) <==> side_map(s).insert(
        l.price as int,
        l.size as int,
    ).contains_key(p) by {
        if p == l.price as int {
            assert(t[pos] == l);
            assert(has_price(t, p));
        } else {
            if has_price(t, p) {
                let i = choose|i: int| 0 <= i < t.len() && t[i].price == p;
                if i < pos {
                    assert(s[i].price == p);
                } else {
                    assert(i > pos);
                    assert(s[i - 1].price == p);
                }
                assert(has_price(s, p));
            }
            if has_price(s, p) {
                let i = choose|i: int| 0 <= i < s.len() && s[i].price == p;
                if i < pos {
                    assert(t[i].price == p);
                } else {
                    assert(t[i + 1].price == p);
                }
                assert(has_price(t, p));
            }
        }
    }
    assert forall|p: int| side_map(t).contains_key(p) implies side_map(t)[p] == side_map(s).insert(
        l.price as int,
        l.size as int,
    )[p] by {
        if p == l.price as int {
            assert(t[pos] == l);
            lemma_index_of_price(t, pos);
        } else {
            let i = choose|i: int| 0 <= i < t.len() && t[i].price == p;
            lemma_index_of_price(t, i);
            if i < pos {
                assert(s[i].price == p);
                lemma_index_of_price(s, i);
            } else {
                assert(i > pos);
                assert(s[i - 1].price == p);
                lemma_index_of_price(s, i - 1);
            }
        }
    }
    assert(side_map(t) =~= side_map(s).insert(l.price as int, l.size as int));
}

/// Overwriting the level that already carries the price changes the
/// abstract state by one map insertion.
proof fn lemma_side_map_update_at(s: Seq<Level>, pos: int, l: Level)
    requires
        wf_side(s),
        l.size > 0,
        0 <= pos < s.len(),
        s[pos].price == l.price,
    ensures
        wf_side(s.update(pos, l)),
        side_map(s.update(pos, l)) == side_map(s).insert(l.price as int, l.size as int),
{
    let t = s.update(pos, l);
    assert(forall|i: int| 0 <= i < t.len() && i != pos ==> t[i] == s[i]);
    assert(t[pos] == l);
    assert forall|i: int, j: int| 0 <= i < j < t.len() implies t[i].price < t[j].price by {
        assert(s[i].price < s[j].price);
    }
    assert(positive_sizes(t));
    assert forall|p: int| #[trigger] side_map(t).contains_key(p) <==> side_map(s).insert(
        l.price as int,
        l.size as int,
    ).contains_key(p) by {
        if p == l.price as int {
            assert(t[pos].price == p);
            assert(has_price(t, p));
        } else {
            if has_price(t, p) {
                let i = choose|i: int| 0 <= i < t.len() && t[i].price == p;
                assert(i != pos);
                assert(s[i].price == p);
            }
            if has_price(s, p) {
                let i = choose|i: int| 0 <= i < s.len() && s[i].price == p;
                assert(i != pos);
                assert(t[i].price == p);
            }
        }
    }
    assert forall|p: int| side_map(t).contains_key(p) implies side_map(t)[p] == side_map(s).insert(
        l.price as int,
        l.size as int,
    )[p] by {
        if p == l.price as int {
            lemma_index_of_price(t, pos);
        } else {
            let i = choose|i: int| 0 <= i < t.len() && t[i].price == p;
            assert(i != pos);
            lemma_index_of_price(t, i);
            lemma_index_of_price(s, i);
        }
    }
    assert(side_map(t) =~= side_map(s).insert(l.price as int, l.size as int));
}

/// Removing the level that carries the price changes the abstract state
/// by one map removal.
proof fn lemma_side_map_remove_at(s: Seq<Level>, pos: int)
    requires
        wf_side(s),
        0 <= pos < s.len(),
    ensures
        wf_side(s.remove(pos)),
        side_map(s.remove(pos)) == side_map(s).remove(s[pos].price as int),
{
    let p0 = s[pos].price as int;
    let t = s.remove(pos);
    assert(forall|i: int| 0 <= i < pos ==> t[i] == s[i]);
    assert(forall|i: int| pos <= i < t.len() ==> t[i] == s[i + 1]);
    assert forall|i: int, j: int| 0 <= i < j < t.len() implies t[i].price < t[j].price by {
        if j < pos {
        } else if i >= pos {
            assert(s[i + 1].price < s[j + 1].price);
        } else {
            assert(s[i].price < s[j + 1].price);
        }
    }
    assert(positive_sizes(t));
    assert forall|p: int| #[trigger] side_map(t).contains_key(p) <==> side_map(s).remove(
        p0,
    ).contains_key(p) by {
        if has_price(t, p) {
            let i = choose|i: int| 0 <= i < t.len() && t[i].price == p;
            if i < pos {
                assert(s[i].price == p);
                if p == p0 {
                    lemma_unique_price(s, i, pos);
                }
            } else {
                assert(s[i + 1].price == p);
                if p == p0 {
                    lemma_unique_price(s, i + 1, pos);
                }
            }
            assert(has_price(s, p) && p != p0);
        }
        if has_price(s, p) && p != p0 {
            let i = choose|i: int| 0 <= i < s.len() && s[i].price == p;
            assert(i != pos);
            if i < pos {
                assert(t[i].price == p);
            } else {
                assert(t[i - 1].price == p);
            }
            assert(has_price(t, p));
        }
    }
    assert forall|p: int| side_map(t).contains_key(p) implies side_map(t)[p] == side_map(s).remove(
        p0,
    )[p] by {
        let i = choose|i: int| 0 <= i < t.len() && t[i].price == p;
        lemma_index_of_price(t, i);
        if i < pos {
            lemma_index_of_price(s, i);
        } else {
            lemma_index_of_price(s, i + 1);
        }
    }
    assert(side_map(t) =~= side_map(s).remove(p0));
}

/// Insert or overwrite the level at this price with a positive size,
/// keeping the side sorted.
pub fn set_level(side: &mut Vec<Level>, price: u64, size: u64)
    requires
        wf_side(old(side)@),
        size > 0,
    ensures
        wf_side(final(side)@),
        side_map(final(side)@) == side_map(old(side)@).insert(price as int, size as int),
{
    let pos = find_from(side, price);
    let l = Level { price, size };
    if pos < side.len() && side[pos].price == price {
        proof {
            lemma_side_map_update_at(side@, pos as int, l);
        }
        side.set(pos, l);
    } else {
        proof {
            assert(pos < side@.len() ==> side@[pos as int].price > price);
            lemma_side_map_insert_at(side@, pos as int, l);
        }
        side.insert(pos, l);
    }
}

/// Remove the level at this price; a no-op when it is absent.
pub fn remove_level(side: &mut Vec<Level>, price: u64)
    requires
        wf_side(old(side)@),
    ensures
        wf_side(final(side)@),
        side_map(final(side)@) == side_map(old(side)@).remove(price as int),
{
    let pos = find_from(side, price);
    if pos < side.len() && side[pos].price == price {
        proof {
            lemma_side_map_remove_at(side@, pos as int);
        }
        side.remove(pos);
    } else {
        proof {
            assert(pos < side@.len() ==> side@[pos as int].price > price);
            assert(!has_price(side@, price as int));
            assert(!side_map(side@).contains_key(price as int));
            assert(side_map(side@) =~= side_map(side@).remove(price as int));
        }
    }
}

/// Apply a batch of deltas to one side, in the order given: a zero size
/// removes the level at that price, any other size inserts or overwrites
/// it. A later delta for the same price in the same batch wins.
pub fn apply_deltas_side(side: &mut Vec<Level>, deltas: &Vec<Level>)
    requires
        wf_side(old(side)@),
    ensures
        wf_side(final(side)@),
        side_map(final(side)@) == apply_ds(side_map(old(side)@), deltas@),
{
    let ghost m0 = side_map(old(side)@);
    let n = deltas.len();
    let mut k: usize = 0;
    while k < n
        invariant
            n == deltas@.len(),
            k <= n,
            wf_side(side@),
            side_map(side@) == apply_ds(m0, deltas@.take(k as int)),
        decreases n - k,
    {
        let d = deltas[k];
        proof {
            assert(deltas@.take(k + 1).drop_last() =~= deltas@.take(k as int));
            assert(deltas@.take(k + 1).last() == d);
        }
        if d.size == 0 {
            remove_level(side, d.price);
        } else {
            set_level(side, d.price, d.size);
        }
        k += 1;
    }
    proof {
        assert(deltas@.take(n as int) =~= deltas@);
    }
}

/// Load a batch of snapshot entries into one side, replacing its whole
/// contents: entries with size zero are skipped, never inserted.
pub fn load_side(side: &mut Vec<Level>, entries: &Vec<Level>)
    ensures
        wf_side(final(side)@),
        side_map(final(side)@) == load_ds(Map::empty(), entries@),
{
    side.clear();
    proof {
        assert(side@ =~= Seq::<Level>::empty());
        assert(!has_price(side@, 0));
        assert(side_map(side@) =~= Map::<int, int>::empty());
    }
    let ghost m0 = side_map(side@);
    let n = entries.len();
    let mut k: usize = 0;
    while k < n
        invariant
            n == entries@.len(),
            k <= n,
            wf_side(side@),
            side_map(side@) == load_ds(m0, entries@.take(k as int)),
        decreases n - k,
    {
        let e = entries[k];
        proof {
            assert(entries@.take(k + 1).drop_last() =~= entries@.take(k as int));
            assert(entries@.take(k + 1).last() == e);
        }
        if e.size > 0 {
            set_level(side, e.price, e.size);
        }
        k += 1;
    }
    proof {
        assert(entries@.take(n as int) =~= entries@);
    }
}

/// The first `n` levels of one side in ascending price order (the
/// display order of asks); fewer when the side holds fewer, empty when
/// the side is empty.
pub fn top_ascending(side: &Vec<Level>, n: usize) -> (r: Vec<Level>)
    ensures
        r@.len() == if n <= side@.len() { n as int } else { side@.len() as int },
        forall|i: int| 0 <= i < r@.len() ==> r@[i] == side@[i],
        wf_side(side@) ==> forall|i: int, j: int| 0 <= i < j < r@.len() ==> r@[i].price < r@[j].price,
{
    let count = if n <= side.len() {
        n
    } else {
        side.len()
    };
    let mut r: Vec<Level> = Vec::new();
    let mut k: usize = 0;
    while k < count
        invariant
            count <= side@.len(),
            k <= count,
            r@.len() == k,
            forall|i: int| 0 <= i < k ==> r@[i] == side@[i],
        decreases count - k,
    {
        r.push(side[k]);
        k += 1;
    }
    r
}

/// The first `n` levels of one side in descending price order (the
/// display order of bids); fewer when the side holds fewer, empty when
/// the side is empty.
pub fn top_descending(side: &Vec<Level>, n: usize) -> (r: Vec<Level>)
    ensures
        r@.len() == if n <= side@.len() { n as int } else { side@.len() as int },
        forall|i: int| 0 <= i < r@.len() ==> r@[i] == side@[side@.len() - 1 - i],
        wf_side(side@) ==> forall|i: int, j: int| 0 <= i < j < r@.len() ==> r@[i].price > r@[j].price,
{
    let count = if n <= side.len() {
        n
    } else {
        side.len()
    };
    let mut r: Vec<Level> = Vec::new();
    let mut k: usize = 0;
    while k < count
        invariant
            count <= side@.len(),
            k <= count,
            r@.len() == k,
            forall|i: int| 0 <= i < k ==> r@[i] == side@[side@.len() - 1 - i],
        decreases count - k,
    {
        r.push(side[side.len() - 1 - k]);
        k += 1;
    }
    r
}

/// The ordered price-level store: one bid side and one ask side.
///
/// Both sides are stored ascending by price; bids are read through
/// `top` in descending order, asks in ascending order.
#[derive(Clone, Debug)]
pub struct BookStore {
    /// Buy levels, ascending by price.
    pub bids: Vec<Level>,
    /// Sell levels, ascending by price.
    pub asks: Vec<Level>,
}

impl BookStore {
    /// Both sides are well formed: strictly sorted, all sizes positive.
    pub open spec fn wf(self) -> bool {
        wf_side(self.bids@) && wf_side(self.asks@)
    }

    /// An empty book.
    pub fn new() -> (r: BookStore)
        ensures
            r.wf(),
            r.bids@.len() == 0,
            r.asks@.len() == 0,
    {
        BookStore { bids: Vec::new(), asks: Vec::new() }
    }

    /// Replace both sides wholesale from snapshot entries; entries with
    /// size zero are skipped, never inserted.
    pub fn load_snapshot(&mut self, bids: &Vec<Level>, asks: &Vec<Level>)
        ensures
            final(self).wf(),
            side_map(final(self).bids@) == load_ds(Map::empty(), bids@),
            side_map(final(self).asks@) == load_ds(Map::empty(), asks@),
    {
        load_side(&mut self.bids, bids);
        load_side(&mut self.asks, asks);
    }

    /// Apply a batch of deltas to one side, in the order given.
    pub fn apply_deltas(&mut self, side: Side, deltas: &Vec<Level>)
        requires
            old(self).wf(),
        ensures
            final(self).wf(),
            side == Side::Bid ==> side_map(final(self).bids@) == apply_ds(
                side_map(old(self).bids@),
                deltas@,
            ) && final(self).asks@ == old(self).asks@,
            side == Side::Ask ==> side_map(final(self).asks@) == apply_ds(
                side_map(old(self).asks@),
                deltas@,
            ) && final(self).bids@ == old(self).bids@,
    {
        match side {
            Side::Bid => apply_deltas_side(&mut self.bids, deltas),
            Side::Ask => apply_deltas_side(&mut self.asks, deltas),
        }
    }

    /// The best `n` levels of one side in its display order: bids
    /// descending by price, asks ascending. Returns fewer than `n`
    /// levels when the side holds fewer, and an empty vector for an
    /// empty side.
    pub fn top(&self, side: Side, n: usize) -> (r: Vec<Level>)
        requires
            self.wf(),
        ensures
            side == Side::Bid ==> r@.len() == (if n <= self.bids@.len() {
                n as int
            } else {
                self.bids@.len() as int
            }) && (forall|i: int|
                0 <= i < r@.len() ==> r@[i] == self.bids@[self.bids@.len() - 1 - i]),
            side == Side::Ask ==> r@.len() == (if n <= self.asks@.len() {
                n as int
            } else {
                self.asks@.len() as int
            }) && (forall|i: int| 0 <= i < r@.len() ==> r@[i] == self.asks@[i]),
            forall|i: int, j: int|
                0 <= i < j < r@.len() ==> (if side == Side::Bid {
                    r@[i].price > r@[j].price
                } else {
                    r@[i].price < r@[j].price
                }),
    {
        match side {
            Side::Bid => top_descending(&self.bids, n),
            Side::Ask => top_ascending(&self.asks, n),
        }
    }
}

} // verus!
