//! A stable sort of keyed items by the network order of `sort`.
//!
//! Items are pairs of a network key and a payload. The sort is specified as
//! insertion of each item, in input order, after every item already placed
//! that it does not sort strictly before; the laws below show that the result
//! is sorted, a permutation of the input, and stable.

use crate::parse::Net;
use crate::sort::{before, lemma_before_strict_total_order, precedes, same_key, SortOptions};
use vstd::prelude::*;

verus! {

/// Every key of `s` is well formed.
pub open spec fn keys_wf<T>(s: Seq<(Net, T)>) -> bool {
    forall|i: int| 0 <= i < s.len() ==> (#[trigger] s[i]).0.wf()
}

/// The index at which an item with key `k` goes into `s`: before the first
/// item whose key `k` sorts strictly before.
pub open spec fn insert_pos<T>(s: Seq<(Net, T)>, k: Net, opts: SortOptions) -> int
    decreases s.len(),
{
    if s.len() == 0 {
        0
    } else if before(k, s[0].0, opts) {
        0
    } else {
        1 + insert_pos(s.drop_first(), k, opts)
    }
}

/// `s` stably sorted by key: each item in turn inserted into the sorted
/// prefix after the items it does not sort strictly before.
pub open spec fn sorted_by_key<T>(s: Seq<(Net, T)>, opts: SortOptions) -> Seq<(Net, T)>
    decreases s.len(),
{
    if s.len() == 0 {
        s
    } else {
        let r = sorted_by_key(s.drop_last(), opts);
        r.insert(insert_pos(r, s.last().0, opts), s.last())
    }
}

/// No item of `s` sorts strictly before an earlier one.
pub open spec fn is_sorted<T>(s: Seq<(Net, T)>, opts: SortOptions) -> bool {
    forall|i: int, j: int| 0 <= i < j < s.len() ==> !before(#[trigger] s[j].0, #[trigger] s[i].0, opts)
}

/// The items of `s` whose key has the same key as `k`, in order.
pub open spec fn same_key_items<T>(s: Seq<(Net, T)>, k: Net) -> Seq<(Net, T)> {
    s.filter(|e: (Net, T)| same_key(e.0, k))
}

/// `t` is `s` stably sorted under `opts`: a permutation of `s` in which no
/// item sorts strictly before an earlier one, and the items of each key keep
/// their order in `s`.
pub open spec fn is_stable_sort_of<T>(t: Seq<(Net, T)>, s: Seq<(Net, T)>, opts: SortOptions) -> bool {
    &&& t.to_multiset() == s.to_multiset()
    &&& is_sorted(t, opts)
    &&& forall|k: Net| #[trigger] same_key_items(t, k) == same_key_items(s, k)
}

proof fn lemma_insert_pos_at<T>(s: Seq<(Net, T)>, k: Net, opts: SortOptions, j: int)
    requires
        0 <= j <= s.len(),
        forall|i: int| 0 <= i < j ==> !before(k, (#[trigger] s[i]).0, opts),
        j == s.len() || before(k, s[j].0, opts),
    ensures
        insert_pos(s, k, opts) == j,
    decreases j,
{
    if j > 0 {
        let t = s.drop_first();
        assert(!before(k, s[0].0, opts));
        assert forall|i: int| 0 <= i < j - 1 implies !before(k, (#[trigger] t[i]).0, opts) by {
            assert(t[i] == s[i + 1]);
        }
        if j < s.len() {
            assert(t[j - 1] == s[j]);
        }
        lemma_insert_pos_at(t, k, opts, j - 1);
    }
}

proof fn lemma_insert_pos_bounds<T>(s: Seq<(Net, T)>, k: Net, opts: SortOptions)
    ensures
        0 <= insert_pos(s, k, opts) <= s.len(),
        forall|i: int| 0 <= i < insert_pos(s, k, opts) ==> !before(k, (#[trigger] s[i]).0, opts),
        insert_pos(s, k, opts) < s.len() ==> before(k, s[insert_pos(s, k, opts)].0, opts),
    decreases s.len(),
{
    if s.len() > 0 && !before(k, s[0].0, opts) {
        let t = s.drop_first();
        lemma_insert_pos_bounds(t, k, opts);
        assert forall|i: int| 0 <= i < insert_pos(s, k, opts) implies !before(
            k,
            (#[trigger] s[i]).0,
            opts,
        ) by {
            if i > 0 {
                assert(s[i] == t[i - 1]);
            }
        }
        if insert_pos(s, k, opts) < s.len() {
            assert(s[insert_pos(s, k, opts)] == t[insert_pos(t, k, opts)]);
        }
    }
}

/// The stable sort has as many items as its input, and keeps keys well formed.
pub proof fn lemma_sorted_by_key_len<T>(s: Seq<(Net, T)>, opts: SortOptions)
    ensures
        sorted_by_key(s, opts).len() == s.len(),
        keys_wf(s) ==> keys_wf(sorted_by_key(s, opts)),
    decreases s.len(),
{
    if s.len() > 0 {
        let r = sorted_by_key(s.drop_last(), opts);
        lemma_sorted_by_key_len(s.drop_last(), opts);
        lemma_insert_pos_bounds(r, s.last().0, opts);
        let p = insert_pos(r, s.last().0, opts);
        if keys_wf(s) {
            assert(keys_wf(s.drop_last())) by {
                assert forall|i: int| 0 <= i < s.drop_last().len() implies (
                #[trigger] s.drop_last()[i]).0.wf() by {
                    assert(s.drop_last()[i] == s[i]);
                }
            }
            let q = r.insert(p, s.last());
            assert forall|i: int| 0 <= i < q.len() implies (#[trigger] q[i]).0.wf() by {
                if i < p {
                    assert(q[i] == r[i]);
                } else if i > p {
                    assert(q[i] == r[i - 1]);
                }
            }
        }
    }
}

/// In a sorted sequence, every item from the insertion position of `k` on
/// has a key that `k` sorts strictly before.
proof fn lemma_after_insert_pos<T>(r: Seq<(Net, T)>, k: Net, opts: SortOptions, m: int)
    requires
        is_sorted(r, opts),
        insert_pos(r, k, opts) <= m < r.len(),
    ensures
        before(k, r[m].0, opts),
{
    lemma_insert_pos_bounds(r, k, opts);
    let p = insert_pos(r, k, opts);
    if m > p {
        assert(!before(r[m].0, r[p].0, opts));
    }
    lemma_before_strict_total_order(k, r[p].0, r[m].0, opts);
    lemma_before_strict_total_order(r[p].0, r[m].0, k, opts);
}

/// The stable sort is sorted: no item sorts strictly before an earlier one.
pub proof fn lemma_sorted_by_key_is_sorted<T>(s: Seq<(Net, T)>, opts: SortOptions)
    ensures
        is_sorted(sorted_by_key(s, opts), opts),
    decreases s.len(),
{
    if s.len() > 0 {
        let r = sorted_by_key(s.drop_last(), opts);
        let x = s.last();
        lemma_sorted_by_key_is_sorted(s.drop_last(), opts);
        lemma_insert_pos_bounds(r, x.0, opts);
        let p = insert_pos(r, x.0, opts);
        let q = r.insert(p, x);
        assert forall|i: int, j: int| 0 <= i < j < q.len() implies !before(
            #[trigger] q[j].0,
            #[trigger] q[i].0,
            opts,
        ) by {
            if i == p {
                lemma_after_insert_pos(r, x.0, opts, j - 1);
                lemma_before_strict_total_order(x.0, r[j - 1].0, x.0, opts);
            } else if j == p {
                assert(q[i] == r[i]);
            } else {
                let ri = if i < p {
                    i
                } else {
                    i - 1
                };
                let rj = if j < p {
                    j
                } else {
                    j - 1
                };
                assert(q[i] == r[ri]);
                assert(q[j] == r[rj]);
            }
        }
    }
}

/// The stable sort is a permutation of its input.
pub proof fn lemma_sorted_by_key_permutes<T>(s: Seq<(Net, T)>, opts: SortOptions)
    ensures
        sorted_by_key(s, opts).to_multiset() =~= s.to_multiset(),
    decreases s.len(),
{
    broadcast use vstd::seq_lib::group_to_multiset_ensures;

    if s.len() > 0 {
        let r = sorted_by_key(s.drop_last(), opts);
        let x = s.last();
        lemma_sorted_by_key_permutes(s.drop_last(), opts);
        lemma_insert_pos_bounds(r, x.0, opts);
        let p = insert_pos(r, x.0, opts);
        let q = r.insert(p, x);
        assert(q.remove(p) =~= r);
        assert(q[p] == x);
        assert(q.to_multiset().remove(x) =~= r.to_multiset());
        assert(q.to_multiset().count(x) > 0);
        assert(s.drop_last().push(x) =~= s);
        assert(q.to_multiset() =~= q.to_multiset().remove(x).insert(x));
    }
}

/// The stable sort is stable: for every key, the items with that key come
/// out in the order in which they went in.
pub proof fn lemma_sorted_by_key_stable<T>(s: Seq<(Net, T)>, k: Net, opts: SortOptions)
    ensures
        same_key_items(sorted_by_key(s, opts), k) == same_key_items(s, k),
    decreases s.len(),
{
    broadcast use vstd::seq_lib::group_filter_ensures;

    let f = |e: (Net, T)| same_key(e.0, k);
    if s.len() == 0 {
    } else {
        let r = sorted_by_key(s.drop_last(), opts);
        let x = s.last();
        lemma_sorted_by_key_stable(s.drop_last(), k, opts);
        lemma_sorted_by_key_is_sorted(s.drop_last(), opts);
        lemma_insert_pos_bounds(r, x.0, opts);
        let p = insert_pos(r, x.0, opts);
        let q = r.insert(p, x);
        let front = r.take(p);
        let back = r.skip(p);
        assert(r =~= front + back);
        assert(q =~= front + seq![x] + back);
        assert(s =~= s.drop_last().push(x));
        Seq::filter_distributes_over_add(front, back, f);
        Seq::filter_distributes_over_add(front + seq![x], back, f);
        Seq::filter_distributes_over_add(front, seq![x], f);
        s.drop_last().lemma_filter_push(x, f);
        reveal_with_fuel(Seq::filter, 2);
        if f(x) {
            assert forall|m: int| 0 <= m < back.len() implies !f(#[trigger] back[m]) by {
                lemma_after_insert_pos(r, x.0, opts, m + p);
                assert(back[m] == r[m + p]);
                lemma_before_strict_total_order(x.0, r[m + p].0, x.0, opts);
            }
            back.lemma_all_neg_filter_empty(f);
        }
    }
}

/// Sorting an already sorted sequence leaves it unchanged.
/// The stable sort is a stable sort: a sorted permutation that keeps the
/// order of equal keys.
pub proof fn lemma_sorted_by_key_sorts_stably<T>(s: Seq<(Net, T)>, opts: SortOptions)
    ensures
        is_stable_sort_of(sorted_by_key(s, opts), s, opts),
{
    lemma_sorted_by_key_permutes(s, opts);
    lemma_sorted_by_key_is_sorted(s, opts);
    assert forall|k: Net| #[trigger] same_key_items(sorted_by_key(s, opts), k) == same_key_items(s, k) by {
        lemma_sorted_by_key_stable(s, k, opts);
    }
}

pub proof fn lemma_sorted_by_key_of_sorted<T>(s: Seq<(Net, T)>, opts: SortOptions)
    requires
        is_sorted(s, opts),
    ensures
        sorted_by_key(s, opts) == s,
    decreases s.len(),
{
    if s.len() > 0 {
        let d = s.drop_last();
        assert forall|i: int, j: int| 0 <= i < j < d.len() implies !before(
            #[trigger] d[j].0,
            #[trigger] d[i].0,
            opts,
        ) by {
            assert(d[i] == s[i] && d[j] == s[j]);
        }
        lemma_sorted_by_key_of_sorted(d, opts);
        assert forall|i: int| 0 <= i < d.len() implies !before(s.last().0, (#[trigger] d[i]).0, opts) by {
            assert(d[i] == s[i]);
        }
        lemma_insert_pos_at(d, s.last().0, opts, d.len() as int);
        assert(d.insert(d.len() as int, s.last()) =~= s);
    }
}

/// The payload-mapped pairs of `s`: each key kept, each payload mapped by `f`.
pub open spec fn map_payload<T, U>(s: Seq<(Net, T)>, f: spec_fn(T) -> U) -> Seq<(Net, U)> {
    s.map_values(|p: (Net, T)| (p.0, f(p.1)))
}

proof fn lemma_insert_pos_map<T, U>(s: Seq<(Net, T)>, f: spec_fn(T) -> U, k: Net, opts: SortOptions)
    ensures
        insert_pos(map_payload(s, f), k, opts) == insert_pos(s, k, opts),
    decreases s.len(),
{
    if s.len() > 0 {
        assert(map_payload(s, f).drop_first() =~= map_payload(s.drop_first(), f));
        lemma_insert_pos_map(s.drop_first(), f, k, opts);
    }
}

/// The sort looks only at keys: mapping the payloads before sorting gives
/// what mapping them after sorting gives.
pub proof fn lemma_sorted_by_key_map<T, U>(s: Seq<(Net, T)>, f: spec_fn(T) -> U, opts: SortOptions)
    ensures
        sorted_by_key(map_payload(s, f), opts) == map_payload(sorted_by_key(s, opts), f),
    decreases s.len(),
{
    if s.len() > 0 {
        let r = sorted_by_key(s.drop_last(), opts);
        assert(map_payload(s, f).drop_last() =~= map_payload(s.drop_last(), f));
        lemma_sorted_by_key_map(s.drop_last(), f, opts);
        lemma_insert_pos_map(r, f, s.last().0, opts);
        lemma_insert_pos_bounds(r, s.last().0, opts);
        let p = insert_pos(r, s.last().0, opts);
        assert(map_payload(r.insert(p, s.last()), f) =~= map_payload(r, f).insert(
            p,
            (s.last().0, f(s.last().1)),
        ));
    }
}

/// Mapping preserves being a permutation: sequences with the same elements
/// (as multisets) map to sequences with the same elements.
pub proof fn lemma_permutation_map<A, B>(s1: Seq<A>, s2: Seq<A>, f: spec_fn(A) -> B)
    requires
        s1.to_multiset() == s2.to_multiset(),
    ensures
        s1.map_values(f).to_multiset() == s2.map_values(f).to_multiset(),
    decreases s1.len(),
{
    broadcast use vstd::seq_lib::group_to_multiset_ensures;

    if s1.len() == 0 {
        s1.to_multiset_ensures();
        s2.to_multiset_ensures();
        assert(s2.len() == 0);
        assert(s1.map_values(f) =~= s2.map_values(f));
    } else {
        let x = s1.last();
        assert(s1[s1.len() - 1] == x);
        assert(s1.contains(x));
        assert(s1.to_multiset().count(x) > 0);
        assert(s2.to_multiset().count(x) > 0);
        assert(s2.contains(x));
        let j = choose|j: int| 0 <= j < s2.len() && s2[j] == x;
        let d1 = s1.drop_last();
        let d2 = s2.remove(j);
        assert(s1.remove(s1.len() - 1) =~= d1);
        assert(d1.to_multiset() =~= d2.to_multiset());
        lemma_permutation_map(d1, d2, f);
        assert(s1.map_values(f).remove(s1.len() - 1) =~= d1.map_values(f));
        assert(s2.map_values(f).remove(j) =~= d2.map_values(f));
        let m1 = s1.map_values(f).to_multiset();
        let m2 = s2.map_values(f).to_multiset();
        assert(s1.map_values(f)[s1.len() - 1] == f(x));
        assert(s2.map_values(f)[j] == f(x));
        assert(m1.remove(f(x)) =~= m2.remove(f(x)));
        assert(s1.map_values(f).contains(f(x)));
        assert(s2.map_values(f).contains(f(x)));
        assert(m1 =~= m1.remove(f(x)).insert(f(x)));
        assert(m2 =~= m2.remove(f(x)).insert(f(x)));
    }
}

/// Sorts `v` stably by key under `opts`.
pub fn stable_sort<T>(v: Vec<(Net, T)>, opts: &SortOptions) -> (r: Vec<(Net, T)>)
    requires
        keys_wf(v@),
    ensures
        r@ == sorted_by_key(v@, *opts),
{
    let ghost orig = v@;
    let mut v = v;
    let mut out: Vec<(Net, T)> = Vec::new();
    let n = v.len();
    let mut i: usize = 0;
    while i < n
        invariant
            0 <= i <= n == orig.len(),
            keys_wf(orig),
            v@ == orig.skip(i as int),
            out@ == sorted_by_key(orig.take(i as int), *opts),
        decreases n - i,
    {
        let x = v.remove(0);
        proof {
            assert(x == orig[i as int]);
            assert(orig.take(i + 1).drop_last() =~= orig.take(i as int));
            assert(orig.take(i + 1).last() == orig[i as int]);
            assert(orig.skip(i as int).remove(0) =~= orig.skip(i + 1));
            assert(keys_wf(orig.take(i as int))) by {
                assert forall|j: int| 0 <= j < orig.take(i as int).len() implies (
                #[trigger] orig.take(i as int)[j]).0.wf() by {
                    assert(orig.take(i as int)[j] == orig[j]);
                }
            }
            lemma_sorted_by_key_len(orig.take(i as int), *opts);
        }
        let mut p: usize = 0;
        while p < out.len() && !precedes(&x.0, &out[p].0, opts)
            invariant
                p <= out@.len(),
                x.0.wf(),
                keys_wf(out@),
                forall|k: int| 0 <= k < p ==> !before(x.0, (#[trigger] out@[k]).0, *opts),
            decreases out@.len() - p,
        {
            p = p + 1;
        }
        proof {
            lemma_insert_pos_at(out@, x.0, *opts, p as int);
        }
        out.insert(p, x);
        i = i + 1;
    }
    proof {
        assert(orig.take(n as int) =~= orig);
    }
    out
}

} // verus!
