//! Putting rows in order.

use vstd::prelude::*;

use crate::double::Double;

verus! {

/// Whether one pair comes no later than another: by the first number, and by the second where
/// the first ones are equal.
pub open spec fn pair_no_later(a: (i128, usize), b: (i128, usize)) -> bool {
    a.0 < b.0 || (a.0 == b.0 && a.1 <= b.1)
}

/// Calls `slice::sort_unstable` on pairs of integers, which the standard library orders by the
/// first and then by the second. The contract says that the result holds the same pairs in that
/// order.
#[verifier::external_body]
fn sort_pairs(pairs: &mut Vec<(i128, usize)>)
    ensures
        final(pairs)@.to_multiset() == old(pairs)@.to_multiset(),
        forall|i: int, j: int|
            0 <= i <= j < final(pairs)@.len() ==> pair_no_later(
                #[trigger] final(pairs)@[i],
                #[trigger] final(pairs)@[j],
            ),
{
    pairs.sort_unstable();
}

/// Whether `order` names every position of a row once, in the order of the row's keys, and
/// positions with equal keys as they stand in the row.
pub open spec fn stable_order(order: Seq<usize>, keys: Seq<i128>) -> bool {
    &&& order.len() == keys.len()
    &&& order.no_duplicates()
    &&& forall|i: int| 0 <= i < order.len() ==> (#[trigger] order[i]) < keys.len()
    &&& forall|i: int, j: int|
        0 <= i < j < order.len() ==> pair_no_later(
            (keys[(#[trigger] order[i]) as int], order[i]),
            (keys[(#[trigger] order[j]) as int], order[j]),
        )
}

/// A row in another order.
pub open spec fn in_order<T>(row: Seq<T>, order: Seq<usize>) -> Seq<T> {
    order.map_values(|i: usize| row[i as int])
}

/// The order in which the keys of a row rise, ties as they stand.
pub fn order_of(keys: &Vec<i128>) -> (r: Vec<usize>)
    ensures
        stable_order(r@, keys@),
{
    let mut pairs: Vec<(i128, usize)> = Vec::new();
    let mut i: usize = 0;
    while i < keys.len()
        invariant
            i <= keys.len(),
            pairs.len() == i,
            forall|j: int| 0 <= j < i ==> #[trigger] pairs@[j] == (keys@[j], j as usize),
        decreases keys.len() - i,
    {
        pairs.push((keys[i], i));
        i = i + 1;
    }
    let ghost given = pairs@;
    sort_pairs(&mut pairs);
    let ghost sorted = pairs@;
    proof {
        broadcast use vstd::seq_lib::group_to_multiset_ensures;

        assert(given.len() == given.to_multiset().len());
        assert(sorted.len() == sorted.to_multiset().len());
        assert(given.no_duplicates());
        given.lemma_multiset_has_no_duplicates();
        sorted.lemma_multiset_has_no_duplicates_conv();
        assert forall|j: int| 0 <= j < sorted.len() implies (#[trigger] sorted[j]).1 < keys.len()
            && sorted[j].0 == keys@[sorted[j].1 as int] by {
            assert(sorted.contains(sorted[j]));
            assert(sorted.to_multiset().count(sorted[j]) > 0);
            assert(given.to_multiset().count(sorted[j]) > 0);
            assert(given.contains(sorted[j]));
            let k = choose|k: int| 0 <= k < given.len() && given[k] == sorted[j];
            assert(given[k] == (keys@[k], k as usize));
        }
    }
    let mut r: Vec<usize> = Vec::new();
    let mut n: usize = 0;
    while n < pairs.len()
        invariant
            n <= pairs.len(),
            pairs@ == sorted,
            r.len() == n,
            forall|j: int| 0 <= j < n ==> #[trigger] r@[j] == sorted[j].1,
        decreases pairs.len() - n,
    {
        r.push(pairs[n].1);
        n = n + 1;
    }
    proof {
        assert forall|a: int, b: int| 0 <= a < r.len() && 0 <= b < r.len() && a != b implies r@[a]
            != r@[b] by {
            assert(sorted[a] != sorted[b]);
        }
    }
    r
}

proof fn lemma_map_keeps_multiset<A, B>(a: Seq<A>, b: Seq<A>, f: spec_fn(A) -> B)
    requires
        a.to_multiset() == b.to_multiset(),
    ensures
        a.map_values(f).to_multiset() == b.map_values(f).to_multiset(),
    decreases a.len(),
{
    broadcast use vstd::seq_lib::group_to_multiset_ensures;

    assert(a.len() == a.to_multiset().len());
    assert(b.len() == b.to_multiset().len());
    if a.len() == 0 {
        assert(a.map_values(f) =~= b.map_values(f));
    } else {
        let x = a.last();
        let n = a.len() - 1;
        assert(a.contains(x));
        assert(a.to_multiset().count(x) > 0);
        assert(b.to_multiset().count(x) > 0);
        let k = choose|k: int| 0 <= k < b.len() && b[k] == x;
        assert(a.remove(n).to_multiset() == b.remove(k).to_multiset());
        lemma_map_keeps_multiset(a.remove(n), b.remove(k), f);
        let fa = a.map_values(f);
        let fb = b.map_values(f);
        assert(fa.remove(n) =~= a.remove(n).map_values(f));
        assert(fb.remove(k) =~= b.remove(k).map_values(f));
        assert(fa.remove(n).to_multiset() == fa.to_multiset().remove(fa[n]));
        assert(fb.remove(k).to_multiset() == fb.to_multiset().remove(fb[k]));
        assert(fa[n] == fb[k]);
        assert(fa.contains(fa[n]) && fb.contains(fb[k]));
        assert(fa.to_multiset().count(fa[n]) > 0);
        assert(fb.to_multiset().count(fb[k]) > 0);
        assert(fa.to_multiset() =~= fa.to_multiset().remove(fa[n]).insert(fa[n]));
        assert(fb.to_multiset() =~= fb.to_multiset().remove(fb[k]).insert(fb[k]));
    }
}

/// A row that is put in order keeps its items, each as often as before.
pub proof fn order_keeps_the_items<T>(row: Seq<T>, order: Seq<usize>, keys: Seq<i128>)
    requires
        stable_order(order, keys),
        keys.len() == row.len(),
        row.len() <= usize::MAX,
    ensures
        in_order(row, order).to_multiset() == row.to_multiset(),
{
    broadcast use vstd::seq_lib::group_to_multiset_ensures;

    let n = row.len();
    let plain = Seq::new(n, |i: int| i as usize);
    assert(plain.no_duplicates());
    plain.lemma_multiset_has_no_duplicates();
    order.lemma_multiset_has_no_duplicates();
    assert(order.to_set() =~= plain.to_set()) by {
        lemma_full(order, n);
        assert forall|x: usize| #[trigger] plain.to_set().contains(x) implies order.to_set().contains(
            x,
        ) by {
            assert(order.contains(x));
        }
        assert forall|x: usize| #[trigger] order.to_set().contains(x) implies plain.to_set().contains(
            x,
        ) by {
            let k = choose|k: int| 0 <= k < order.len() && order[k] == x;
            assert(plain[x as int] == x);
        }
    }
    assert forall|x: usize| order.to_multiset().count(x) == plain.to_multiset().count(x) by {
        assert(order.to_set().contains(x) <==> plain.to_set().contains(x));
        assert(order.to_multiset().contains(x) <==> order.contains(x));
        assert(plain.to_multiset().contains(x) <==> plain.contains(x));
    }
    assert(order.to_multiset() =~= plain.to_multiset());
    let f = |i: usize| row[i as int];
    lemma_map_keeps_multiset(order, plain, f);
    assert(plain.map_values(f) =~= row);
}

/// A row of `n` different numbers below `n` holds all of them.
proof fn lemma_full(order: Seq<usize>, n: nat)
    requires
        order.len() == n,
        n <= usize::MAX,
        order.no_duplicates(),
        forall|i: int| 0 <= i < order.len() ==> (#[trigger] order[i]) < n,
    ensures
        forall|x: usize| x < n ==> #[trigger] order.contains(x),
{
    let all = Set::new(|x: usize| x < n);
    let used = order.to_set();
    order.unique_seq_to_set();
    lemma_below(n);
    assert(used.subset_of(all));
    vstd::set_lib::lemma_subset_equality(used, all);
    assert forall|x: usize| x < n implies #[trigger] order.contains(x) by {
        assert(all.contains(x));
        assert(used.contains(x));
    }
}

proof fn lemma_below(n: nat)
    requires
        n <= usize::MAX,
    ensures
        Set::new(|x: usize| x < n).finite(),
        Set::new(|x: usize| x < n).len() == n,
    decreases n,
{
    let all = Set::new(|x: usize| x < n);
    if n == 0 {
        assert(all =~= Set::empty());
    } else {
        let m = (n - 1) as nat;
        lemma_below(m);
        let rest = Set::new(|x: usize| x < m);
        assert(all =~= rest.insert(m as usize));
    }
}

/// Whether a row never falls.
pub open spec fn rises_u64(row: Seq<u64>) -> bool {
    forall|i: int, j: int| 0 <= i <= j < row.len() ==> #[trigger] row[i] <= #[trigger] row[j]
}

/// A row of counts from the smallest to the largest.
pub open spec fn ascending_u64(row: Seq<u64>) -> Seq<u64> {
    row.sort_by(|a: u64, b: u64| a <= b)
}

proof fn lemma_ascending_u64(sorted: Seq<u64>, row: Seq<u64>)
    requires
        rises_u64(sorted),
        sorted.to_multiset() == row.to_multiset(),
    ensures
        sorted == ascending_u64(row),
{
    let leq = |a: u64, b: u64| a <= b;
    row.lemma_sort_by_ensures(leq);
    vstd::seq_lib::lemma_sorted_unique(sorted, row.sort_by(leq), leq);
}

/// Sorts numbers from the smallest to the largest.
pub fn sorted_u64(row: &Vec<u64>) -> (r: Vec<u64>)
    ensures
        r@ == ascending_u64(row@),
        rises_u64(r@),
        r@.to_multiset() == row@.to_multiset(),
        r.len() == row.len(),
{
    let mut keys: Vec<i128> = Vec::new();
    let mut i: usize = 0;
    while i < row.len()
        invariant
            i <= row.len(),
            keys.len() == i,
            forall|j: int| 0 <= j < i ==> #[trigger] keys@[j] == row@[j],
        decreases row.len() - i,
    {
        keys.push(row[i] as i128);
        i = i + 1;
    }
    let order: Vec<usize> = order_of(&keys);
    let mut r: Vec<u64> = Vec::new();
    let mut n: usize = 0;
    while n < order.len()
        invariant
            n <= order.len(),
            stable_order(order@, keys@),
            keys.len() == row.len(),
            r.len() == n,
            forall|j: int| 0 <= j < n ==> #[trigger] r@[j] == row@[order@[j] as int],
        decreases order.len() - n,
    {
        r.push(row[order[n]]);
        n = n + 1;
    }
    proof {
        assert(r@ =~= in_order(row@, order@));
        order_keeps_the_items(row@, order@, keys@);
        assert forall|a: int, b: int| 0 <= a <= b < r.len() implies #[trigger] r@[a]
            <= #[trigger] r@[b] by {
            let x = order@[a] as int;
            let y = order@[b] as int;
            assert(keys@[x] == row@[x] && keys@[y] == row@[y]);
        }
        lemma_ascending_u64(r@, row@);
    }
    r
}

/// Whether a row never falls.
pub open spec fn rises_i64(row: Seq<i64>) -> bool {
    forall|i: int, j: int| 0 <= i <= j < row.len() ==> #[trigger] row[i] <= #[trigger] row[j]
}

/// A row of signed numbers from the smallest to the largest.
pub open spec fn ascending_i64(row: Seq<i64>) -> Seq<i64> {
    row.sort_by(|a: i64, b: i64| a <= b)
}

proof fn lemma_ascending_i64(sorted: Seq<i64>, row: Seq<i64>)
    requires
        rises_i64(sorted),
        sorted.to_multiset() == row.to_multiset(),
    ensures
        sorted == ascending_i64(row),
{
    let leq = |a: i64, b: i64| a <= b;
    row.lemma_sort_by_ensures(leq);
    vstd::seq_lib::lemma_sorted_unique(sorted, row.sort_by(leq), leq);
}

/// Sorts signed numbers from the smallest to the largest.
pub fn sorted_i64(row: &Vec<i64>) -> (r: Vec<i64>)
    ensures
        r@ == ascending_i64(row@),
        rises_i64(r@),
        r@.to_multiset() == row@.to_multiset(),
        r.len() == row.len(),
{
    let mut keys: Vec<i128> = Vec::new();
    let mut i: usize = 0;
    while i < row.len()
        invariant
            i <= row.len(),
            keys.len() == i,
            forall|j: int| 0 <= j < i ==> #[trigger] keys@[j] == row@[j],
        decreases row.len() - i,
    {
        keys.push(row[i] as i128);
        i = i + 1;
    }
    let order: Vec<usize> = order_of(&keys);
    let mut r: Vec<i64> = Vec::new();
    let mut n: usize = 0;
    while n < order.len()
        invariant
            n <= order.len(),
            stable_order(order@, keys@),
            keys.len() == row.len(),
            r.len() == n,
            forall|j: int| 0 <= j < n ==> #[trigger] r@[j] == row@[order@[j] as int],
        decreases order.len() - n,
    {
        r.push(row[order[n]]);
        n = n + 1;
    }
    proof {
        assert(r@ =~= in_order(row@, order@));
        order_keeps_the_items(row@, order@, keys@);
        assert forall|a: int, b: int| 0 <= a <= b < r.len() implies #[trigger] r@[a]
            <= #[trigger] r@[b] by {
            let x = order@[a] as int;
            let y = order@[b] as int;
            assert(keys@[x] == row@[x] && keys@[y] == row@[y]);
        }
        lemma_ascending_i64(r@, row@);
    }
    r
}

/// The ranks of a row of binary64 numbers.
pub open spec fn ranks(row: Seq<Double>) -> Seq<i128> {
    row.map_values(|d: Double| d.rank() as i128)
}

/// Whether `sorted` is a row of binary64 numbers from the smallest to the largest, the two zeros
/// as they stand in the row.
pub open spec fn is_sorted_row(sorted: Seq<Double>, row: Seq<Double>) -> bool {
    exists|order: Seq<usize>|
        stable_order(order, ranks(row)) && sorted == #[trigger] in_order(row, order)
}

/// Sorts binary64 numbers from the smallest to the largest, the two zeros as they stand.
pub fn sorted_doubles(row: &Vec<Double>) -> (r: Vec<Double>)
    ensures
        is_sorted_row(r@, row@),
        r.len() == row.len(),
{
    let mut keys: Vec<i128> = Vec::new();
    let mut i: usize = 0;
    while i < row.len()
        invariant
            i <= row.len(),
            keys.len() == i,
            forall|j: int| 0 <= j < i ==> #[trigger] keys@[j] == row@[j].rank(),
        decreases row.len() - i,
    {
        keys.push(row[i].order_key() as i128);
        i = i + 1;
    }
    proof {
        assert(keys@ =~= ranks(row@));
    }
    let order: Vec<usize> = order_of(&keys);
    let mut r: Vec<Double> = Vec::new();
    let mut n: usize = 0;
    while n < order.len()
        invariant
            n <= order.len(),
            stable_order(order@, keys@),
            keys.len() == row.len(),
            r.len() == n,
            forall|j: int| 0 <= j < n ==> #[trigger] r@[j] == row@[order@[j] as int],
        decreases order.len() - n,
    {
        r.push(row[order[n]]);
        n = n + 1;
    }
    proof {
        assert(r@ =~= in_order(row@, order@));
    }
    r
}

/// A sorted row holds the same numbers, and their ranks never fall.
pub proof fn sorted_row_rises(sorted: Seq<Double>, row: Seq<Double>)
    requires
        is_sorted_row(sorted, row),
        row.len() <= usize::MAX,
    ensures
        sorted.to_multiset() == row.to_multiset(),
        forall|i: int, j: int|
            0 <= i <= j < sorted.len() ==> (#[trigger] sorted[i]).rank() <= (
            #[trigger] sorted[j]).rank(),
{
    let order = choose|order: Seq<usize>|
        stable_order(order, ranks(row)) && sorted == #[trigger] in_order(row, order);
    order_keeps_the_items(row, order, ranks(row));
    assert forall|i: int, j: int| 0 <= i <= j < sorted.len() implies (
    #[trigger] sorted[i]).rank() <= (#[trigger] sorted[j]).rank() by {
        let x = order[i] as int;
        let y = order[j] as int;
        assert(ranks(row)[x] == row[x].rank() as i128);
        assert(ranks(row)[y] == row[y].rank() as i128);
    }
}

/// Only one order of a row is stable.
pub proof fn stable_order_is_unique(a: Seq<usize>, b: Seq<usize>, keys: Seq<i128>)
    requires
        stable_order(a, keys),
        stable_order(b, keys),
        keys.len() <= usize::MAX,
    ensures
        a == b,
{
    let leq = |x: usize, y: usize| pair_no_later((keys[x as int], x), (keys[y as int], y));
    order_keeps_the_items(Seq::new(keys.len(), |i: int| i as usize), a, keys);
    order_keeps_the_items(Seq::new(keys.len(), |i: int| i as usize), b, keys);
    assert(in_order(Seq::new(keys.len(), |i: int| i as usize), a) =~= a);
    assert(in_order(Seq::new(keys.len(), |i: int| i as usize), b) =~= b);
    vstd::seq_lib::lemma_sorted_unique(a, b, leq);
}

/// A row whose keys never fall stays as it stands.
pub proof fn row_in_order_stays(order: Seq<usize>, keys: Seq<i128>)
    requires
        stable_order(order, keys),
        keys.len() <= usize::MAX,
        forall|i: int, j: int|
            0 <= i <= j < keys.len() ==> #[trigger] keys[i] <= #[trigger] keys[j],
    ensures
        order.len() == keys.len(),
        forall|i: int| 0 <= i < order.len() ==> #[trigger] order[i] == i,
{
    let plain = Seq::new(keys.len(), |i: int| i as usize);
    assert(stable_order(plain, keys));
    stable_order_is_unique(plain, order, keys);
}

/// Whether a row of positions climbs from each one to the next.
spec fn climbs(row: Seq<usize>) -> bool {
    forall|i: int, j: int| 0 <= i < j < row.len() ==> #[trigger] row[i] < #[trigger] row[j]
}

proof fn lemma_same_climb(a: Seq<usize>, b: Seq<usize>)
    requires
        climbs(a),
        climbs(b),
        forall|x: usize| #[trigger] a.contains(x) <==> b.contains(x),
    ensures
        a == b,
{
    let leq = |x: usize, y: usize| x <= y;
    assert(a.no_duplicates());
    assert(b.no_duplicates());
    a.lemma_multiset_has_no_duplicates();
    b.lemma_multiset_has_no_duplicates();
    broadcast use vstd::seq_lib::group_to_multiset_ensures;

    assert forall|x: usize| a.to_multiset().count(x) == b.to_multiset().count(x) by {
        assert(a.contains(x) <==> b.contains(x));
        assert(a.to_multiset().contains(x) <==> a.contains(x));
        assert(b.to_multiset().contains(x) <==> b.contains(x));
    }
    assert(a.to_multiset() =~= b.to_multiset());
    vstd::seq_lib::lemma_sorted_unique(a, b, leq);
}

proof fn lemma_filter_climbs(row: Seq<usize>, f: spec_fn(usize) -> bool)
    requires
        forall|i: int, j: int|
            0 <= i < j < row.len() && f(row[i]) && f(row[j]) ==> #[trigger] row[i]
                < #[trigger] row[j],
    ensures
        climbs(row.filter(f)),
        forall|x: usize| #[trigger] row.filter(f).contains(x) <==> row.contains(x) && f(x),
    decreases row.len(),
{
    reveal(Seq::filter);
    if row.len() > 0 {
        let head = row.drop_last();
        assert forall|i: int, j: int|
            0 <= i < j < head.len() && f(head[i]) && f(head[j]) implies #[trigger] head[i]
            < #[trigger] head[j] by {
            assert(row[i] < row[j]);
        }
        lemma_filter_climbs(head, f);
        let kept = head.filter(f);
        let all = row.filter(f);
        let last = row.last();
        let n = row.len() - 1;
        assert forall|i: int, j: int| 0 <= i < j < all.len() implies #[trigger] all[i]
            < #[trigger] all[j] by {
            if j == kept.len() {
                assert(kept.contains(all[i]));
                let k = choose|k: int| 0 <= k < head.len() && head[k] == all[i];
                assert(row[k] == all[i]);
                assert(row[n] == last);
                assert(row[k] < row[n]);
            }
        }
        assert forall|x: usize| #[trigger] all.contains(x) <==> row.contains(x) && f(x) by {
            assert(kept.contains(x) <==> head.contains(x) && f(x));
            if all.contains(x) {
                let k = choose|k: int| 0 <= k < all.len() && all[k] == x;
                if k < kept.len() {
                    assert(kept.contains(x));
                    let m = choose|m: int| 0 <= m < head.len() && head[m] == x;
                    assert(row[m] == x);
                } else {
                    assert(row[n] == x);
                }
            }
            if row.contains(x) && f(x) {
                let k = choose|k: int| 0 <= k < row.len() && row[k] == x;
                if k < n {
                    assert(head[k] == x);
                    assert(kept.contains(x));
                    let m = choose|m: int| 0 <= m < kept.len() && kept[m] == x;
                    assert(all[m] == x);
                } else {
                    assert(all[kept.len() as int] == x);
                }
            }
        }
    } else {
        assert(row.filter(f) =~= Seq::empty());
    }
}

proof fn lemma_filter_of_map<T>(
    row: Seq<T>,
    places: Seq<usize>,
    f: spec_fn(T) -> bool,
    g: spec_fn(usize) -> bool,
)
    requires
        forall|i: int| 0 <= i < places.len() ==> g(#[trigger] places[i]) == f(row[places[i] as int]),
    ensures
        places.map_values(|i: usize| row[i as int]).filter(f) == places.filter(g).map_values(
            |i: usize| row[i as int],
        ),
    decreases places.len(),
{
    reveal(Seq::filter);
    let at = |i: usize| row[i as int];
    if places.len() > 0 {
        let head = places.drop_last();
        assert forall|i: int| 0 <= i < head.len() implies g(#[trigger] head[i]) == f(
            row[head[i] as int],
        ) by {
            assert(head[i] == places[i]);
        }
        lemma_filter_of_map(row, head, f, g);
        assert(places.map_values(at).drop_last() =~= head.map_values(at));
        assert(places[places.len() - 1] == places.last());
        assert(places.map_values(at).filter(f) =~= places.filter(g).map_values(at));
    } else {
        assert(places.map_values(at).filter(f) =~= places.filter(g).map_values(at));
    }
}

/// A row that is put in order keeps the items of one key as they stand.
pub proof fn order_keeps_ties<T>(
    row: Seq<T>,
    order: Seq<usize>,
    keys: Seq<i128>,
    key: i128,
    f: spec_fn(T) -> bool,
)
    requires
        stable_order(order, keys),
        keys.len() == row.len(),
        row.len() <= usize::MAX,
        forall|i: int| 0 <= i < row.len() ==> (f(#[trigger] row[i]) <==> keys[i] == key),
    ensures
        in_order(row, order).filter(f) == row.filter(f),
{
    let plain = Seq::new(row.len(), |i: int| i as usize);
    let g = |i: usize| keys[i as int] == key;
    lemma_full(order, row.len());
    lemma_filter_of_map(row, order, f, g);
    lemma_filter_of_map(row, plain, f, g);
    assert forall|i: int, j: int| 0 <= i < j < order.len() && g(order[i]) && g(order[j]) implies
        #[trigger] order[i] < #[trigger] order[j] by {
        assert(order[i] != order[j]);
    }
    lemma_filter_climbs(order, g);
    lemma_filter_climbs(plain, g);
    assert forall|x: usize| #[trigger] order.filter(g).contains(x) <==> plain.filter(g).contains(
        x,
    ) by {
        if x < row.len() {
            assert(order.contains(x));
            assert(plain[x as int] == x);
        } else {
            if order.contains(x) {
                let k = choose|k: int| 0 <= k < order.len() && order[k] == x;
                assert(false);
            }
            if plain.contains(x) {
                let k = choose|k: int| 0 <= k < plain.len() && plain[k] == x;
                assert(false);
            }
        }
    }
    lemma_same_climb(order.filter(g), plain.filter(g));
    assert(plain.map_values(|i: usize| row[i as int]) =~= row);
}

} // verus!
