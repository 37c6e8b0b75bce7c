//! The local copy of a Lighter order book, rebuilt from snapshots and deltas.

use std::collections::BTreeMap;

use vstd::prelude::*;

use crate::double::{Double, BILLION_BITS};
use crate::rounding::{
    key_is_in_range, key_of_price, key_spec, price_keeps_order, price_keeps_strict_order,
    price_of_key, price_spec, MILLION,
};
use crate::tick::{falling, nowhere_empty, rising, strictly_falling, strictly_rising, Level};

verus! {

broadcast use {
    vstd::std_specs::btree::group_btree_axioms,
    vstd::laws_cmp::group_laws_cmp,
};

/// A local book: the sizes on offer by key, and each key a price in millionths.
pub struct LighterBook {
    pub symbol: String,
    pub bids: BTreeMap<i64, Double>,
    pub asks: BTreeMap<i64, Double>,
}

/// One level of a delta. A price or a size that the message does not give is missing.
#[derive(Clone, Copy, Debug, PartialEq, Eq, Structural)]
pub struct LevelChange {
    pub price: Option<Double>,
    pub size: Option<Double>,
}

/// One side of a book after one level of a delta: a size that is not above zero takes the level
/// away, and any other size stands in its place. A level without a price or a size changes
/// nothing.
pub open spec fn changed(side: Map<i64, Double>, change: LevelChange) -> Map<i64, Double> {
    match (change.price, change.size) {
        (Some(price), Some(size)) => {
            let key = key_spec(price) as i64;
            if size.le(Double { bits: 0 }) {
                side.remove(key)
            } else {
                side.insert(key, size)
            }
        },
        _ => side,
    }
}

/// One side of a book after a whole delta.
pub open spec fn applied(side: Map<i64, Double>, changes: Seq<LevelChange>) -> Map<i64, Double>
    decreases changes.len(),
{
    if changes.len() == 0 {
        side
    } else {
        changed(applied(side, changes.drop_last()), changes.last())
    }
}

/// Applies a delta to one side of a book.
pub fn apply_lighter_delta(side: &mut BTreeMap<i64, Double>, changes: &Vec<LevelChange>)
    ensures
        final(side)@ == applied(old(side)@, changes@),
{
    let mut i: usize = 0;
    proof {
        assert(changes@.take(0) =~= Seq::empty());
    }
    while i < changes.len()
        invariant
            i <= changes.len(),
            side@ == applied(old(side)@, changes@.take(i as int)),
        decreases changes.len() - i,
    {
        proof {
            assert(changes@.take(i + 1).drop_last() =~= changes@.take(i as int));
        }
        let change: LevelChange = changes[i];
        if let (Some(price), Some(size)) = (change.price, change.size) {
            let key: i64 = key_of_price(price);
            if size.at_most(Double::zero()) {
                side.remove(&key);
            } else {
                side.insert(key, size);
            }
        }
        i = i + 1;
    }
    proof {
        assert(changes@.take(i as int) =~= changes@);
    }
}

/// Whether a row of keys climbs from each one to the next.
pub open spec fn climbing(keys: Seq<i64>) -> bool {
    forall|i: int, j: int| 0 <= i < j < keys.len() ==> #[trigger] keys[i] < #[trigger] keys[j]
}

/// Whether a row lists the keys of one side of a book, from the lowest to the highest.
pub open spec fn lists(keys: Seq<i64>, side: Map<i64, Double>) -> bool {
    &&& climbing(keys)
    &&& forall|k: i64| #[trigger] keys.contains(k) <==> side.contains_key(k)
}

/// The keys of one side of a book, from the lowest to the highest.
pub open spec fn keys_in_order(side: Map<i64, Double>) -> Seq<i64> {
    choose|keys: Seq<i64>| lists(keys, side)
}

/// The levels that a row of keys stands for.
pub open spec fn levels_of(keys: Seq<i64>, side: Map<i64, Double>) -> Seq<Level> {
    keys.map_values(|k: i64| Level { price: price_spec(k as int), size: side[k] })
}

/// The first `n` items of a row, or all of them where there are fewer.
pub open spec fn up_to<T>(row: Seq<T>, n: nat) -> Seq<T> {
    if n < row.len() {
        row.take(n as int)
    } else {
        row
    }
}

/// The best bids: those with the highest keys, from the highest down.
pub open spec fn best_bids(side: Map<i64, Double>, depth: nat) -> Seq<Level> {
    levels_of(up_to(keys_in_order(side).reverse(), depth), side)
}

/// The best asks: those with the lowest keys, from the lowest up.
pub open spec fn best_asks(side: Map<i64, Double>, depth: nat) -> Seq<Level> {
    levels_of(up_to(keys_in_order(side), depth), side)
}

/// Only one row lists the keys of one side of a book.
pub proof fn listing_is_unique(a: Seq<i64>, b: Seq<i64>, side: Map<i64, Double>)
    requires
        lists(a, side),
        lists(b, side),
    ensures
        a == b,
{
    lemma_same_climb(a, b);
}

proof fn lemma_same_climb(a: Seq<i64>, b: Seq<i64>)
    requires
        climbing(a),
        climbing(b),
        forall|k: i64| #[trigger] a.contains(k) <==> b.contains(k),
    ensures
        a == b,
    decreases a.len(),
{
    if a.len() == 0 {
        if b.len() > 0 {
            assert(b.contains(b[0]));
            assert(a.contains(b[0]));
        }
        assert(a =~= b);
    } else {
        assert(a.contains(a[0]));
        assert(b.contains(a[0]));
        assert(b.contains(b[0]));
        assert(a.contains(b[0]));
        let i = choose|i: int| 0 <= i < b.len() && b[i] == a[0];
        let j = choose|j: int| 0 <= j < a.len() && a[j] == b[0];
        assert(a[0] == b[0]);
        let x = a.drop_first();
        let y = b.drop_first();
        assert forall|k: i64| #[trigger] x.contains(k) <==> y.contains(k) by {
            if x.contains(k) {
                let m = choose|m: int| 0 <= m < x.len() && x[m] == k;
                assert(a[m + 1] == k);
                assert(a.contains(k));
                let n = choose|n: int| 0 <= n < b.len() && b[n] == k;
                assert(n != 0);
                assert(y[n - 1] == k);
            }
            if y.contains(k) {
                let m = choose|m: int| 0 <= m < y.len() && y[m] == k;
                assert(b[m + 1] == k);
                assert(b.contains(k));
                assert(a.contains(k));
                let n = choose|n: int| 0 <= n < a.len() && a[n] == k;
                assert(n != 0);
                assert(x[n - 1] == k);
            }
        }
        lemma_same_climb(x, y);
        assert(a =~= seq![a[0]] + x);
        assert(b =~= seq![b[0]] + y);
    }
}

proof fn lemma_increasing_climbs(keys: Seq<i64>)
    requires
        vstd::std_specs::btree::increasing_seq(keys),
    ensures
        climbing(keys),
{
    assert forall|i: int, j: int| 0 <= i < j < keys.len() implies #[trigger] keys[i]
        < #[trigger] keys[j] by {
        assert(vstd::std_specs::cmp::OrdSpec::cmp_spec(&keys[i], &keys[j]) is Less);
    }
}

/// Lists the keys of one side of a book with their sizes, from the lowest to the highest.
fn entries(side: &BTreeMap<i64, Double>) -> (r: Vec<(i64, Double)>)
    ensures
        lists(r@.map_values(|e: (i64, Double)| e.0), side@),
        forall|i: int| 0 <= i < r.len() ==> (#[trigger] r@[i]).1 == side@[r@[i].0],
{
    let mut r: Vec<(i64, Double)> = Vec::new();
    let ghost all = vstd::std_specs::iter::IteratorSpec::remaining(
        &vstd::std_specs::btree::spec_btree_map_iter(side),
    );
    let ghost keys = all.map_values(|kv: (&i64, &Double)| *kv.0);
    for e in it: side.iter()
        invariant
            it.seq() == all,
            keys == all.map_values(|kv: (&i64, &Double)| *kv.0),
            vstd::std_specs::btree::increasing_seq(keys),
            r.len() == it.index(),
            forall|i: int|
                0 <= i < r.len() ==> (#[trigger] r@[i]).0 == *all[i].0 && r@[i].1 == *all[i].1,
    {
        r.push((*e.0, *e.1));
    }
    proof {
        assert(r@.map_values(|e: (i64, Double)| e.0) =~= keys);
        lemma_increasing_climbs(keys);
        assert forall|k: i64| #[trigger] keys.contains(k) <==> side@.contains_key(k) by {
            if keys.contains(k) {
                let i = choose|i: int| 0 <= i < keys.len() && keys[i] == k;
                assert(side@.contains_key(*all[i].0));
            }
            if side@.contains_key(k) {
                assert(all.contains((&k, &side@[k])));
                let i = choose|i: int| 0 <= i < all.len() && all[i] == (&k, &side@[k]);
                assert(keys[i] == k);
            }
        }
        assert forall|i: int| 0 <= i < r.len() implies (#[trigger] r@[i]).1 == side@[r@[i].0] by {
            assert(side@.contains_key(*all[i].0));
        }
    }
    r
}

/// The levels on top of one side of a book.
fn top_levels(side: &BTreeMap<i64, Double>, depth: usize, from_the_top: bool) -> (r: Vec<Level>)
    ensures
        r@ == (if from_the_top {
            best_bids(side@, depth as nat)
        } else {
            best_asks(side@, depth as nat)
        }),
{
    let all: Vec<(i64, Double)> = entries(side);
    let ghost keys = all@.map_values(|e: (i64, Double)| e.0);
    let ghost row = up_to(
        if from_the_top {
            keys.reverse()
        } else {
            keys
        },
        depth as nat,
    );
    proof {
        listing_is_unique(keys, keys_in_order(side@), side@);
    }
    let count: usize = if depth < all.len() {
        depth
    } else {
        all.len()
    };
    let mut r: Vec<Level> = Vec::new();
    let mut i: usize = 0;
    while i < count
        invariant
            i <= count <= all.len(),
            r.len() == i,
            row.len() == count,
            row == up_to(
                if from_the_top {
                    keys.reverse()
                } else {
                    keys
                },
                depth as nat,
            ),
            keys == all@.map_values(|e: (i64, Double)| e.0),
            forall|j: int| 0 <= j < all.len() ==> (#[trigger] all@[j]).1 == side@[all@[j].0],
            forall|j: int| 0 <= j < i ==> #[trigger] r@[j] == levels_of(row, side@)[j],
        decreases count - i,
    {
        let at: usize = if from_the_top {
            all.len() - 1 - i
        } else {
            i
        };
        let price: Double = price_of_key(all[at].0);
        r.push(Level { price, size: all[at].1 });
        i = i + 1;
    }
    assert(r@ =~= levels_of(row, side@));
    r
}

/// The `depth` best levels of each side of a book.
pub fn lighter_top_levels(book: &LighterBook, depth: usize) -> (r: (Vec<Level>, Vec<Level>))
    ensures
        r.0@ == best_bids(book.bids@, depth as nat),
        r.1@ == best_asks(book.asks@, depth as nat),
{
    (top_levels(&book.bids, depth, true), top_levels(&book.asks, depth, false))
}

/// Every side of a book can be listed.
pub proof fn listing_exists(side: Map<i64, Double>)
    requires
        side.dom().finite(),
    ensures
        lists(keys_in_order(side), side),
        keys_in_order(side).len() == side.dom().len(),
    decreases side.dom().len(),
{
    broadcast use vstd::set_lib::group_set_properties;

    if side.dom().len() == 0 {
        let none = Seq::<i64>::empty();
        assert forall|k: i64| #[trigger] none.contains(k) <==> side.contains_key(k) by {
            assert(!side.dom().contains(k));
        }
        assert(lists(none, side));
        listing_is_unique(none, keys_in_order(side), side);
    } else {
        let leq = |a: i64, b: i64| a <= b;
        let top = side.dom().find_unique_maximal(leq);
        side.dom().find_unique_maximal_ensures(leq);
        assert forall|k: i64| side.contains_key(k) implies k <= top by {
            assert(side.dom().contains(k));
            if leq(top, k) {
                assert(leq(k, top));
            }
        }
        let rest = side.remove(top);
        listing_exists(rest);
        let below = keys_in_order(rest);
        let row = below.push(top);
        assert forall|i: int, j: int| 0 <= i < j < row.len() implies #[trigger] row[i]
            < #[trigger] row[j] by {
            if j == below.len() {
                assert(below.contains(row[i]));
                assert(rest.contains_key(row[i]));
            }
        }
        assert forall|k: i64| #[trigger] row.contains(k) <==> side.contains_key(k) by {
            if row.contains(k) {
                let i = choose|i: int| 0 <= i < row.len() && row[i] == k;
                if i < below.len() {
                    assert(below.contains(k));
                }
            }
            if side.contains_key(k) {
                if k == top {
                    assert(row[below.len() as int] == k);
                } else {
                    assert(rest.contains_key(k));
                    assert(below.contains(k));
                    let i = choose|i: int| 0 <= i < below.len() && below[i] == k;
                    assert(row[i] == k);
                }
            }
        }
        assert(lists(row, side));
        listing_is_unique(row, keys_in_order(side), side);
    }
}

/// The bids that a book gives out fall in price, its asks rise, and each side gives out all of its
/// levels or `depth` of them.
pub proof fn best_levels_are_in_order(side: Map<i64, Double>, depth: nat)
    requires
        side.dom().finite(),
    ensures
        falling(best_bids(side, depth)),
        rising(best_asks(side, depth)),
        best_bids(side, depth).len() == if depth < side.dom().len() {
            depth
        } else {
            side.dom().len()
        },
        best_asks(side, depth).len() == best_bids(side, depth).len(),
{
    listing_exists(side);
    let keys = keys_in_order(side);
    let bids = best_bids(side, depth);
    let asks = best_asks(side, depth);
    let n = keys.len();
    assert forall|i: int, j: int| 0 <= i <= j < bids.len() implies (
    #[trigger] bids[i]).price.rank() >= (#[trigger] bids[j]).price.rank() by {
        if i < j {
            price_keeps_order(keys[n - 1 - j], keys[n - 1 - i]);
        }
    }
    assert forall|i: int, j: int| 0 <= i <= j < asks.len() implies (
    #[trigger] asks[i]).price.rank() <= (#[trigger] asks[j]).price.rank() by {
        if i < j {
            price_keeps_order(keys[i], keys[j]);
        }
    }
}

/// No key that a book keeps back beats one that it gives out: not above a bid, not below an ask.
pub proof fn best_levels_beat_the_rest(side: Map<i64, Double>, depth: nat, shown: i64, kept: i64)
    requires
        side.dom().finite(),
        side.contains_key(kept),
    ensures
        up_to(keys_in_order(side).reverse(), depth).contains(shown) && !up_to(
            keys_in_order(side).reverse(),
            depth,
        ).contains(kept) ==> kept < shown,
        up_to(keys_in_order(side), depth).contains(shown) && !up_to(
            keys_in_order(side),
            depth,
        ).contains(kept) ==> kept > shown,
{
    listing_exists(side);
    let keys = keys_in_order(side);
    assert(keys.contains(kept));
    let at = choose|i: int| 0 <= i < keys.len() && keys[i] == kept;
    let down = up_to(keys.reverse(), depth);
    let up = up_to(keys, depth);
    if down.contains(shown) && !down.contains(kept) {
        let i = choose|i: int| 0 <= i < down.len() && down[i] == shown;
        let mirror = keys.len() - 1 - at;
        assert(keys.reverse()[mirror] == kept);
        if mirror < down.len() {
            assert(down[mirror] == kept);
        }
        assert(keys[keys.len() - 1 - i] == shown);
    }
    if up.contains(shown) && !up.contains(kept) {
        let i = choose|i: int| 0 <= i < up.len() && up[i] == shown;
        if at < up.len() {
            assert(up[at] == kept);
        }
        assert(keys[i] == shown);
    }
}

/// Whether every size of one side of a book is above zero, or a NaN.
pub open spec fn without_empty_levels(side: Map<i64, Double>) -> bool {
    forall|k: i64| side.contains_key(k) ==> !(#[trigger] side[k]).le(Double { bits: 0 })
}

/// A delta never leaves a level of size zero behind.
pub proof fn delta_leaves_no_empty_level(side: Map<i64, Double>, changes: Seq<LevelChange>)
    requires
        without_empty_levels(side),
    ensures
        without_empty_levels(applied(side, changes)),
    decreases changes.len(),
{
    if changes.len() > 0 {
        delta_leaves_no_empty_level(side, changes.drop_last());
    }
}

/// The size on offer at a key, if there is one.
pub open spec fn size_at(side: Map<i64, Double>, key: i64) -> Option<Double> {
    if side.contains_key(key) {
        Some(side[key])
    } else {
        None
    }
}

/// Whether a level of a delta speaks of a key.
pub open spec fn concerns(change: LevelChange, key: i64) -> bool {
    match (change.price, change.size) {
        (Some(price), Some(_)) => key_spec(price) as i64 == key,
        _ => false,
    }
}

/// What a delta leaves at a key depends on the side it meets only where the delta does not speak
/// of that key.
pub proof fn delta_decides_its_keys(
    a: Map<i64, Double>,
    b: Map<i64, Double>,
    changes: Seq<LevelChange>,
    key: i64,
)
    ensures
        (exists|i: int| 0 <= i < changes.len() && concerns(#[trigger] changes[i], key))
            ==> size_at(applied(a, changes), key) == size_at(applied(b, changes), key),
        !(exists|i: int| 0 <= i < changes.len() && concerns(#[trigger] changes[i], key))
            ==> size_at(applied(a, changes), key) == size_at(a, key),
    decreases changes.len(),
{
    if changes.len() > 0 {
        let short = changes.drop_last();
        let last = changes.last();
        delta_decides_its_keys(a, b, short, key);
        if concerns(last, key) {
            assert(changes[changes.len() - 1] == last);
        } else {
            if exists|i: int| 0 <= i < changes.len() && concerns(#[trigger] changes[i], key) {
                let i = choose|i: int| 0 <= i < changes.len() && concerns(#[trigger] changes[i], key);
                assert(short[i] == changes[i]);
            }
            if exists|i: int| 0 <= i < short.len() && concerns(#[trigger] short[i], key) {
                let i = choose|i: int| 0 <= i < short.len() && concerns(#[trigger] short[i], key);
                assert(changes[i] == short[i]);
            }
        }
    }
}

/// A delta that arrives twice has the effect of one.
pub proof fn delta_applied_twice_is_applied_once(
    side: Map<i64, Double>,
    changes: Seq<LevelChange>,
)
    ensures
        applied(applied(side, changes), changes) =~= applied(side, changes),
{
    let once = applied(side, changes);
    let twice = applied(once, changes);
    assert forall|key: i64| size_at(twice, key) == size_at(once, key) by {
        delta_decides_its_keys(once, side, changes, key);
    }
    assert forall|key: i64| twice.dom().contains(key) == once.dom().contains(key) by {
        assert(size_at(twice, key) == size_at(once, key));
    }
    assert forall|key: i64| twice.dom().contains(key) implies twice[key] == once[key] by {
        assert(size_at(twice, key) == size_at(once, key));
    }
}

/// Whether every key of one side of a book stands for a price below `2^32`, and every size is above
/// zero.
pub open spec fn is_sound(side: Map<i64, Double>) -> bool {
    forall|k: i64| #[trigger]
        side.contains_key(k) ==> -0x1_0000_0000 * MILLION < k < 0x1_0000_0000 * MILLION && side[k].gt(
            Double { bits: 0 },
        )
}

/// Whether a level of a delta has a price between zero and a billion, and a size that is a number,
/// where it has them.
pub open spec fn is_in_range(change: LevelChange) -> bool {
    &&& change.price matches Some(price) ==> price.gt(Double { bits: 0 }) && (Double {
        bits: BILLION_BITS,
    }).gt(price)
    &&& change.size matches Some(size) ==> !size.nan()
}

/// A delta in range keeps a side sound.
pub proof fn delta_keeps_a_side_sound(side: Map<i64, Double>, changes: Seq<LevelChange>)
    requires
        is_sound(side),
        forall|i: int| 0 <= i < changes.len() ==> is_in_range(#[trigger] changes[i]),
    ensures
        is_sound(applied(side, changes)),
    decreases changes.len(),
{
    if changes.len() > 0 {
        let short = changes.drop_last();
        assert forall|i: int| 0 <= i < short.len() implies is_in_range(#[trigger] short[i]) by {
            assert(short[i] == changes[i]);
        }
        delta_keeps_a_side_sound(side, short);
        assert(is_in_range(changes[changes.len() - 1]));
        if let (Some(price), Some(_)) = (changes.last().price, changes.last().size) {
            key_is_in_range(price);
        }
    }
}

/// Of a sound side, each bid that a book gives out is below the one before it and each ask above,
/// and no level is empty.
pub proof fn best_levels_are_strictly_in_order(side: Map<i64, Double>, depth: nat)
    requires
        side.dom().finite(),
        is_sound(side),
    ensures
        strictly_falling(best_bids(side, depth)),
        strictly_rising(best_asks(side, depth)),
        nowhere_empty(best_bids(side, depth)),
        nowhere_empty(best_asks(side, depth)),
{
    listing_exists(side);
    let keys = keys_in_order(side);
    let bids = best_bids(side, depth);
    let asks = best_asks(side, depth);
    let n = keys.len();
    assert forall|i: int| 0 <= i < n implies side.contains_key(#[trigger] keys[i]) by {
        assert(keys.contains(keys[i]));
    }
    assert forall|i: int, j: int| 0 <= i < j < bids.len() implies (#[trigger] bids[i]).price.gt(
        (#[trigger] bids[j]).price,
    ) by {
        assert(side.contains_key(keys[n - 1 - j]));
        assert(side.contains_key(keys[n - 1 - i]));
        price_keeps_strict_order(keys[n - 1 - j], keys[n - 1 - i]);
    }
    assert forall|i: int, j: int| 0 <= i < j < asks.len() implies (#[trigger] asks[j]).price.gt(
        (#[trigger] asks[i]).price,
    ) by {
        assert(side.contains_key(keys[i]));
        assert(side.contains_key(keys[j]));
        price_keeps_strict_order(keys[i], keys[j]);
    }
    assert forall|i: int| 0 <= i < bids.len() implies (#[trigger] bids[i]).size.gt(
        Double { bits: 0 },
    ) by {
        assert(side.contains_key(keys[n - 1 - i]));
    }
    assert forall|i: int| 0 <= i < asks.len() implies (#[trigger] asks[i]).size.gt(
        Double { bits: 0 },
    ) by {
        assert(side.contains_key(keys[i]));
    }
}

} // verus!
