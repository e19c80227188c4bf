//! Stable sorting: the order in which items stand once they are sorted by a key,
//! items of equal keys keeping their order.

use vstd::prelude::*;
use vstd::relations::*;

verus! {

/// The item at `a` comes before the item at `b`: by its key, and among equal keys by
/// its place.
pub open spec fn comes_before(keys: Seq<int>, a: int, b: int) -> bool {
    keys[a] < keys[b] || (keys[a] == keys[b] && a < b)
}

/// The places from 0 up to, not including, `n`.
pub open spec fn upto(n: nat) -> Seq<int> {
    Seq::new(n, |i: int| i)
}

/// The places of the items, in the order of a stable sort by the keys.
pub open spec fn stable_order(keys: Seq<int>) -> Seq<int> {
    upto(keys.len()).sort_by(|a: int, b: int| a == b || comes_before(keys, a, b))
}

/// The items in the order of a stable sort by a key.
pub open spec fn stable_sorted<A>(items: Seq<A>, key: spec_fn(A) -> int) -> Seq<A> {
    stable_order(items.map_values(key)).map_values(|i: int| items[i])
}

/// Each place comes before those that follow it.
pub open spec fn in_order(keys: Seq<int>, v: Seq<int>) -> bool {
    forall|i: int, j: int|
        0 <= i < j < v.len() ==> comes_before(keys, #[trigger] v[i], #[trigger] v[j])
}

/// `v` holds the places from `lo` up to, not including, `hi`.
pub open spec fn covers(v: Seq<int>, lo: int, hi: int) -> bool {
    forall|x: int| #[trigger] v.contains(x) <==> lo <= x < hi
}

/// A stable sort puts every item at exactly one place, smaller keys first and equal
/// keys in the order they had.
pub proof fn law_stable_order(keys: Seq<int>)
    ensures
        stable_order(keys).len() == keys.len(),
        in_order(keys, stable_order(keys)),
        covers(stable_order(keys), 0, keys.len() as int),
        stable_order(keys).no_duplicates(),
{
    let leq = |a: int, b: int| a == b || comes_before(keys, a, b);
    let range = upto(keys.len());
    let sorted = stable_order(keys);
    assert(total_ordering(leq));
    range.lemma_sort_by_ensures(leq);
    range.to_multiset_ensures();
    sorted.to_multiset_ensures();
    assert forall|x: int| #[trigger] sorted.contains(x) <==> 0 <= x < keys.len() by {
        assert(sorted.contains(x) <==> sorted.to_multiset().count(x) > 0);
        assert(range.contains(x) <==> range.to_multiset().count(x) > 0);
        if 0 <= x < keys.len() {
            assert(range[x] == x);
        }
    }
    assert(range.no_duplicates());
    range.lemma_multiset_has_no_duplicates();
    sorted.lemma_multiset_has_no_duplicates_conv();
    assert forall|i: int, j: int| 0 <= i < j < sorted.len() implies comes_before(
        keys,
        #[trigger] sorted[i],
        #[trigger] sorted[j],
    ) by {
        assert(sorted_by(sorted, leq));
        assert(leq(sorted[i], sorted[j]));
    }
}

/// There is one way to put the same places in order.
pub proof fn law_orders_are_unique(keys: Seq<int>, u: Seq<int>, v: Seq<int>)
    requires
        in_order(keys, u),
        in_order(keys, v),
        forall|x: int| #[trigger] u.contains(x) <==> v.contains(x),
    ensures
        u == v,
    decreases u.len(),
{
    if u.len() == 0 {
        if v.len() > 0 {
            assert(v.contains(v[0]));
            assert(u.contains(v[0]));
        }
        assert(u =~= v);
    } else {
        let a = u.last();
        assert(u.contains(a));
        assert(v.contains(a));
        let k = choose|k: int| 0 <= k < v.len() && v[k] == a;
        let b = v.last();
        assert(v.contains(b));
        assert(u.contains(b));
        let m = choose|m: int| 0 <= m < u.len() && u[m] == b;
        if a != b {
            assert(comes_before(keys, v[k], v[v.len() - 1]));
            assert(comes_before(keys, u[m], u[u.len() - 1]));
        }
        let u1 = u.drop_last();
        let v1 = v.drop_last();
        assert forall|x: int| #[trigger] u1.contains(x) implies v1.contains(x) by {
            let i = choose|i: int| 0 <= i < u1.len() && u1[i] == x;
            assert(u[i] == x);
            assert(comes_before(keys, u[i], u[u.len() - 1]));
            assert(u.contains(x));
            assert(v.contains(x));
            let j = choose|j: int| 0 <= j < v.len() && v[j] == x;
            assert(v1[j] == x);
        }
        assert forall|x: int| #[trigger] v1.contains(x) implies u1.contains(x) by {
            let i = choose|i: int| 0 <= i < v1.len() && v1[i] == x;
            assert(v[i] == x);
            assert(comes_before(keys, v[i], v[v.len() - 1]));
            assert(v.contains(x));
            assert(u.contains(x));
            let j = choose|j: int| 0 <= j < u.len() && u[j] == x;
            assert(u1[j] == x);
        }
        law_orders_are_unique(keys, u1, v1);
        assert(u =~= u1.push(a));
        assert(v =~= v1.push(b));
    }
}

/// The keys as numbers.
pub open spec fn key_values(keys: Seq<i128>) -> Seq<int> {
    keys.map_values(|k: i128| k as int)
}

/// Places as numbers.
pub open spec fn places(v: Seq<usize>) -> Seq<int> {
    v.map_values(|x: usize| x as int)
}

/// Merge two ordered lists of places, the first list's all before the second's.
fn merge(keys: &Vec<i128>, a: &Vec<usize>, b: &Vec<usize>, Ghost(lo): Ghost<int>, Ghost(mid): Ghost<
    int,
>, Ghost(hi): Ghost<int>) -> (r: Vec<usize>)
    requires
        0 <= lo <= mid <= hi <= keys@.len(),
        in_order(key_values(keys@), places(a@)),
        in_order(key_values(keys@), places(b@)),
        covers(places(a@), lo, mid),
        covers(places(b@), mid, hi),
    ensures
        in_order(key_values(keys@), places(r@)),
        covers(places(r@), lo, hi),
{
    let ghost ks = key_values(keys@);
    let ghost pa = places(a@);
    let ghost pb = places(b@);
    let na: usize = a.len();
    let nb: usize = b.len();
    let mut out: Vec<usize> = Vec::new();
    let mut i: usize = 0;
    let mut j: usize = 0;
    while i < na || j < nb
        invariant
            0 <= lo <= mid <= hi <= keys@.len(),
            ks == key_values(keys@),
            pa == places(a@),
            pb == places(b@),
            na == a@.len(),
            nb == b@.len(),
            i <= na,
            j <= nb,
            in_order(ks, pa),
            in_order(ks, pb),
            covers(pa, lo, mid),
            covers(pb, mid, hi),
            in_order(ks, places(out@)),
            forall|k: int, m: int|
                0 <= k < out@.len() && i <= m < na ==> comes_before(
                    ks,
                    #[trigger] places(out@)[k],
                    #[trigger] pa[m],
                ),
            forall|k: int, m: int|
                0 <= k < out@.len() && j <= m < nb ==> comes_before(
                    ks,
                    #[trigger] places(out@)[k],
                    #[trigger] pb[m],
                ),
            forall|k: int| 0 <= k < out@.len() ==> lo <= #[trigger] out@[k] < hi,
            forall|m: int| 0 <= m < i ==> places(out@).contains(#[trigger] pa[m]),
            forall|m: int| 0 <= m < j ==> places(out@).contains(#[trigger] pb[m]),
        decreases na - i + nb - j,
    {
        proof {
            if i < na {
                assert(pa.contains(pa[i as int]));
            }
            if j < nb {
                assert(pb.contains(pb[j as int]));
            }
        }
        let left = if i >= na {
            false
        } else if j >= nb {
            true
        } else {
            keys[a[i]] <= keys[b[j]]
        };
        let ghost before = out@;
        let x: usize = if left {
            a[i]
        } else {
            b[j]
        };
        proof {
            if i < na && j < nb {
                if left {
                    assert(comes_before(ks, pa[i as int], pb[j as int]));
                } else {
                    assert(comes_before(ks, pb[j as int], pa[i as int]));
                }
            }
        }
        out.push(x);
        proof {
            assert(places(out@) =~= places(before).push(x as int));
            assert forall|y: int| #[trigger] places(before).contains(y) implies places(
                out@,
            ).contains(y) by {
                let k = choose|k: int| 0 <= k < before.len() && places(before)[k] == y;
                assert(places(out@)[k] == y);
            }
            assert(places(out@)[before.len() as int] == x);
            assert forall|k: int, m: int|
                0 <= k < m < places(out@).len() implies comes_before(
                ks,
                #[trigger] places(out@)[k],
                #[trigger] places(out@)[m],
            ) by {
                if m == before.len() {
                    assert(before[k] == out@[k]);
                    if left {
                        assert(comes_before(ks, places(before)[k], pa[i as int]));
                    } else {
                        assert(comes_before(ks, places(before)[k], pb[j as int]));
                    }
                } else {
                    assert(comes_before(ks, places(before)[k], places(before)[m]));
                }
            }
        }
        if left {
            i = i + 1;
        } else {
            j = j + 1;
        }
    }
    proof {
        let po = places(out@);
        assert forall|x: int| #[trigger] po.contains(x) <==> lo <= x < hi by {
            if po.contains(x) {
                let k = choose|k: int| 0 <= k < po.len() && po[k] == x;
                assert(out@[k] == x);
            }
            if lo <= x < mid {
                assert(pa.contains(x));
                let m = choose|m: int| 0 <= m < pa.len() && pa[m] == x;
                assert(po.contains(pa[m]));
            } else if mid <= x < hi {
                assert(pb.contains(x));
                let m = choose|m: int| 0 <= m < pb.len() && pb[m] == x;
                assert(po.contains(pb[m]));
            }
        }
    }
    out
}

/// The places from `lo` up to `hi`, in order.
fn sort_range(keys: &Vec<i128>, lo: usize, hi: usize) -> (r: Vec<usize>)
    requires
        lo <= hi <= keys@.len(),
    ensures
        in_order(key_values(keys@), places(r@)),
        covers(places(r@), lo as int, hi as int),
    decreases hi - lo,
{
    if lo == hi {
        let r: Vec<usize> = Vec::new();
        r
    } else if lo + 1 == hi {
        let r: Vec<usize> = vec![lo];
        assert(places(r@)[0] == lo);
        r
    } else {
        let mid: usize = lo + (hi - lo) / 2;
        let a = sort_range(keys, lo, mid);
        let b = sort_range(keys, mid, hi);
        merge(keys, &a, &b, Ghost(lo as int), Ghost(mid as int), Ghost(hi as int))
    }
}

/// The places of the items, in the order of a stable sort by the keys.
pub fn sort_stable(keys: &Vec<i128>) -> (r: Vec<usize>)
    ensures
        places(r@) == stable_order(key_values(keys@)),
{
    let r = sort_range(keys, 0, keys.len());
    proof {
        let ks = key_values(keys@);
        law_stable_order(ks);
        assert forall|x: int| #[trigger] places(r@).contains(x) <==> stable_order(ks).contains(
            x,
        ) by {}
        law_orders_are_unique(ks, places(r@), stable_order(ks));
    }
    r
}

/// Items taken in an order that holds every place exactly once are the same items, as
/// many times each.
pub proof fn law_orders_keep_the_items<A>(items: Seq<A>, o: Seq<int>)
    requires
        o.no_duplicates(),
        covers(o, 0, items.len() as int),
    ensures
        o.map_values(|i: int| items[i]).to_multiset() == items.to_multiset(),
    decreases items.len(),
{
    let taken = o.map_values(|i: int| items[i]);
    if items.len() == 0 {
        if o.len() > 0 {
            assert(o.contains(o[0]));
        }
        assert(taken =~= items);
    } else {
        let last = items.len() - 1;
        let fewer = items.drop_last();
        assert(o.contains(last));
        let k = choose|k: int| 0 <= k < o.len() && o[k] == last;
        let rest = o.remove(k);
        assert forall|x: int| #[trigger] rest.contains(x) <==> 0 <= x < last by {
            if rest.contains(x) {
                let j = choose|j: int| 0 <= j < rest.len() && rest[j] == x;
                let at = if j < k {
                    j
                } else {
                    j + 1
                };
                assert(o[at] == x);
                assert(o.contains(x));
            }
            if 0 <= x < last {
                assert(o.contains(x));
                let j = choose|j: int| 0 <= j < o.len() && o[j] == x;
                let at = if j < k {
                    j
                } else {
                    j - 1
                };
                assert(rest[at] == x);
            }
        }
        assert(rest.no_duplicates());
        law_orders_keep_the_items(fewer, rest);
        let fewer_taken = rest.map_values(|i: int| fewer[i]);
        assert forall|j: int| 0 <= j < rest.len() implies fewer_taken[j] == taken.remove(k)[j] by {
            assert(rest.contains(rest[j]));
        }
        assert(fewer_taken =~= taken.remove(k));
        taken.to_multiset_ensures();
        fewer.to_multiset_ensures();
        assert(taken[k] == items[last]);
        assert(taken.contains(taken[k]));
        assert(items =~= fewer.push(items[last]));
        assert(taken.remove(k).to_multiset() =~= taken.to_multiset().remove(items[last]));
        assert(taken.to_multiset().remove(items[last]).insert(items[last])
            =~= taken.to_multiset());
    }
}

/// A stable sort keeps the items, as many times each, and puts smaller keys first.
pub proof fn law_stable_sort<A>(items: Seq<A>, key: spec_fn(A) -> int)
    ensures
        stable_sorted(items, key).to_multiset() == items.to_multiset(),
        stable_sorted(items, key).len() == items.len(),
        forall|a: int, b: int|
            0 <= a < b < items.len() ==> key(#[trigger] stable_sorted(items, key)[a]) <= key(
                #[trigger] stable_sorted(items, key)[b],
            ),
{
    let keys = items.map_values(key);
    let o = stable_order(keys);
    law_stable_order(keys);
    law_orders_keep_the_items(items, o);
    let sorted = stable_sorted(items, key);
    assert forall|a: int, b: int| 0 <= a < b < items.len() implies key(#[trigger] sorted[a])
        <= key(#[trigger] sorted[b]) by {
        assert(comes_before(keys, o[a], o[b]));
        assert(o.contains(o[a]));
        assert(o.contains(o[b]));
    }
}

} // verus!
