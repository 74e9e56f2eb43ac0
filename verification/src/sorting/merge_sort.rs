//! Top-down merge sort.
//!
//! The algorithm is described by two recursive spec functions, generic in
//! the item type and ordered by a key: `merge_runs` interleaves two runs,
//! taking from the left run on ties, and `merge_sorted` splits, recurses and
//! merges. The executable functions are proved to compute them on `i32`
//! items keyed by their own value; what holds of the result (ascending,
//! a rearrangement, stable) is proved once, of the spec functions.

use vstd::prelude::*;
use crate::order::{is_sort_of, permutes, sorted};

verus! {

/// The key by which the executable functions order their items: the value
/// itself.
pub open spec fn by_value() -> spec_fn(i32) -> int {
    |x: i32| x as int
}

/// The interleaving of two runs `l` and `r`: at each point the smaller head
/// comes next, and the head of `l` where the two keys are equal.
pub open spec fn merge_runs<T>(l: Seq<T>, r: Seq<T>, key: spec_fn(T) -> int) -> Seq<T>
    decreases l.len() + r.len(),
{
    if l.len() == 0 {
        r
    } else if r.len() == 0 {
        l
    } else if key(l[0]) <= key(r[0]) {
        seq![l[0]] + merge_runs(l.drop_first(), r, key)
    } else {
        seq![r[0]] + merge_runs(l, r.drop_first(), key)
    }
}

/// The number of items that the left half of a range of `n` items gets.
pub open spec fn left_half(n: nat) -> nat {
    if n == 0 {
        0
    } else {
        ((n - 1) / 2 + 1) as nat
    }
}

/// What merge sort makes of `s`: a sequence of at most one item stays; a
/// longer one is split behind its middle, both halves are sorted, and the
/// results are merged.
pub open spec fn merge_sorted<T>(s: Seq<T>, key: spec_fn(T) -> int) -> Seq<T>
    decreases s.len(),
{
    if s.len() <= 1 {
        s
    } else {
        let h = left_half(s.len()) as int;
        merge_runs(merge_sorted(s.take(h), key), merge_sorted(s.skip(h), key), key)
    }
}

/// `arr` with the range from `lo` up to `hi`, exclusive, replaced by `mid`.
pub open spec fn with_range(arr: Seq<i32>, lo: int, hi: int, mid: Seq<i32>) -> Seq<i32> {
    arr.take(lo) + mid + arr.skip(hi)
}

/// `s` is ascending by key.
pub open spec fn key_sorted<T>(s: Seq<T>, key: spec_fn(T) -> int) -> bool {
    forall|i: int, j: int| 0 <= i <= j < s.len() ==> key(s[i]) <= key(s[j])
}

/// No item of `s` has a key below `bound`.
pub open spec fn keys_at_least<T>(s: Seq<T>, key: spec_fn(T) -> int, bound: int) -> bool {
    forall|i: int| 0 <= i < s.len() ==> key(#[trigger] s[i]) >= bound
}

/// The test "has the key `k`".
pub open spec fn has_key<T>(key: spec_fn(T) -> int, k: int) -> spec_fn(T) -> bool {
    |x: T| key(x) == k
}

/// The items of `s` that have the key `k`, in the order in which they
/// stand in `s`.
pub open spec fn items_with_key<T>(s: Seq<T>, key: spec_fn(T) -> int, k: int) -> Seq<T> {
    s.filter(has_key(key, k))
}

/// A sequence whose keys are all above `k` holds no item with the key `k`.
proof fn lemma_no_item_below_bound<T>(s: Seq<T>, key: spec_fn(T) -> int, k: int)
    requires
        keys_at_least(s, key, k + 1),
    ensures
        items_with_key(s, key, k) == Seq::<T>::empty(),
{
    let found = items_with_key(s, key, k);
    if found.len() > 0 {
        s.lemma_filter_pred(has_key(key, k), 0);
        assert(found.contains(found[0]));
        s.lemma_filter_contains_rev(has_key(key, k), found[0]);
        let i = choose|i: int| 0 <= i < s.len() && s[i] == found[0];
        assert(key(s[i]) >= k + 1);
    }
    assert(found =~= Seq::<T>::empty());
}

/// The items with the key `k` of a sequence that begins with `x`.
proof fn lemma_items_with_key_cons<T>(x: T, rest: Seq<T>, key: spec_fn(T) -> int, k: int)
    ensures
        items_with_key(seq![x] + rest, key, k) == if key(x) == k {
            seq![x] + items_with_key(rest, key, k)
        } else {
            items_with_key(rest, key, k)
        },
{
    let p = has_key(key, k);
    Seq::filter_distributes_over_add(seq![x], rest, p);
    reveal_with_fuel(Seq::filter, 2);
    let one = seq![x];
    assert(one.drop_last() =~= Seq::<T>::empty());
    assert(one.last() == x);
    if key(x) == k {
        assert(one.filter(p) =~= seq![x]);
    } else {
        assert(one.filter(p) =~= Seq::<T>::empty());
        assert(Seq::<T>::empty() + rest.filter(p) =~= rest.filter(p));
    }
}

/// A lower bound on the keys of two runs is one on the keys of their merge.
pub proof fn lemma_merge_runs_bound<T>(l: Seq<T>, r: Seq<T>, key: spec_fn(T) -> int, bound: int)
    requires
        keys_at_least(l, key, bound),
        keys_at_least(r, key, bound),
    ensures
        keys_at_least(merge_runs(l, r, key), key, bound),
    decreases l.len() + r.len(),
{
    if l.len() == 0 || r.len() == 0 {
    } else if key(l[0]) <= key(r[0]) {
        let rest = merge_runs(l.drop_first(), r, key);
        assert forall|i: int| 0 <= i < l.drop_first().len() implies key(
            #[trigger] l.drop_first()[i],
        ) >= bound by {
            assert(l.drop_first()[i] == l[i + 1]);
        }
        lemma_merge_runs_bound(l.drop_first(), r, key, bound);
        let m = seq![l[0]] + rest;
        assert forall|i: int| 0 <= i < m.len() implies key(#[trigger] m[i]) >= bound by {
            if i > 0 {
                assert(m[i] == rest[i - 1]);
            }
        }
    } else {
        let rest = merge_runs(l, r.drop_first(), key);
        assert forall|i: int| 0 <= i < r.drop_first().len() implies key(
            #[trigger] r.drop_first()[i],
        ) >= bound by {
            assert(r.drop_first()[i] == r[i + 1]);
        }
        lemma_merge_runs_bound(l, r.drop_first(), key, bound);
        let m = seq![r[0]] + rest;
        assert forall|i: int| 0 <= i < m.len() implies key(#[trigger] m[i]) >= bound by {
            if i > 0 {
                assert(m[i] == rest[i - 1]);
            }
        }
    }
}

/// An item in front of an ascending sequence whose keys are not below its
/// own gives an ascending sequence.
proof fn lemma_key_sorted_cons<T>(x: T, rest: Seq<T>, key: spec_fn(T) -> int)
    requires
        key_sorted(rest, key),
        keys_at_least(rest, key, key(x)),
    ensures
        key_sorted(seq![x] + rest, key),
{
    let m = seq![x] + rest;
    assert forall|i: int, j: int| 0 <= i <= j < m.len() implies key(m[i]) <= key(m[j]) by {
        if i == 0 {
            if j > 0 {
                assert(m[j] == rest[j - 1]);
            }
        } else {
            assert(m[i] == rest[i - 1]);
            assert(m[j] == rest[j - 1]);
        }
    }
}

/// What is left of an ascending sequence behind its first item is ascending,
/// and none of its keys is below the first.
proof fn lemma_key_sorted_tail<T>(s: Seq<T>, key: spec_fn(T) -> int)
    requires
        key_sorted(s, key),
        s.len() > 0,
    ensures
        key_sorted(s.drop_first(), key),
        keys_at_least(s.drop_first(), key, key(s[0])),
        keys_at_least(s, key, key(s[0])),
{
    let t = s.drop_first();
    assert forall|i: int, j: int| 0 <= i <= j < t.len() implies key(t[i]) <= key(t[j]) by {
        assert(t[i] == s[i + 1]);
        assert(t[j] == s[j + 1]);
    }
    assert forall|i: int| 0 <= i < t.len() implies key(#[trigger] t[i]) >= key(s[0]) by {
        assert(t[i] == s[i + 1]);
    }
}

/// Weakening a lower bound.
proof fn lemma_keys_at_least_weaken<T>(s: Seq<T>, key: spec_fn(T) -> int, hi: int, lo: int)
    requires
        keys_at_least(s, key, hi),
        lo <= hi,
    ensures
        keys_at_least(s, key, lo),
{
}

/// The merge of two ascending runs is ascending, holds the items of both,
/// and is stable: the items with any one key come out as those of the left
/// run, in their order, followed by those of the right run, in theirs.
pub proof fn lemma_merge_runs<T>(l: Seq<T>, r: Seq<T>, key: spec_fn(T) -> int)
    requires
        key_sorted(l, key),
        key_sorted(r, key),
    ensures
        key_sorted(merge_runs(l, r, key), key),
        merge_runs(l, r, key).to_multiset() == l.to_multiset().add(r.to_multiset()),
        merge_runs(l, r, key).len() == l.len() + r.len(),
        forall|k: int| #[trigger]
            items_with_key(merge_runs(l, r, key), key, k) == items_with_key(l, key, k)
                + items_with_key(r, key, k),
    decreases l.len() + r.len(),
{
    broadcast use vstd::seq_lib::group_to_multiset_ensures;
    broadcast use vstd::multiset::group_multiset_axioms;

    let m = merge_runs(l, r, key);
    if l.len() == 0 {
        assert(l =~= Seq::<T>::empty());
        assert(m.to_multiset() =~= l.to_multiset().add(r.to_multiset()));
        assert forall|k: int| #[trigger]
            items_with_key(m, key, k) == items_with_key(l, key, k) + items_with_key(r, key, k) by {
            reveal_with_fuel(Seq::filter, 1);
            assert(items_with_key(l, key, k) =~= Seq::<T>::empty());
            assert(Seq::<T>::empty() + items_with_key(r, key, k) =~= items_with_key(r, key, k));
        }
    } else if r.len() == 0 {
        assert(r =~= Seq::<T>::empty());
        assert(m.to_multiset() =~= l.to_multiset().add(r.to_multiset()));
        assert forall|k: int| #[trigger]
            items_with_key(m, key, k) == items_with_key(l, key, k) + items_with_key(r, key, k) by {
            reveal_with_fuel(Seq::filter, 1);
            assert(items_with_key(r, key, k) =~= Seq::<T>::empty());
            assert(items_with_key(l, key, k) + Seq::<T>::empty() =~= items_with_key(l, key, k));
        }
    } else if key(l[0]) <= key(r[0]) {
        let lt = l.drop_first();
        let rest = merge_runs(lt, r, key);
        lemma_key_sorted_tail(l, key);
        lemma_key_sorted_tail(r, key);
        lemma_merge_runs(lt, r, key);
        lemma_keys_at_least_weaken(r, key, key(r[0]), key(l[0]));
        lemma_merge_runs_bound(lt, r, key, key(l[0]));
        lemma_key_sorted_cons(l[0], rest, key);
        assert(l =~= seq![l[0]] + lt);
        assert(l =~= lt.insert(0, l[0]));
        assert(m =~= rest.insert(0, l[0]));
        assert(m.to_multiset() =~= l.to_multiset().add(r.to_multiset()));
        assert forall|k: int| #[trigger]
            items_with_key(m, key, k) == items_with_key(l, key, k) + items_with_key(r, key, k) by {
            lemma_items_with_key_cons(l[0], rest, key, k);
            lemma_items_with_key_cons(l[0], lt, key, k);
            assert(items_with_key(rest, key, k) == items_with_key(lt, key, k) + items_with_key(
                r,
                key,
                k,
            ));
            assert(items_with_key(m, key, k) =~= items_with_key(l, key, k) + items_with_key(
                r,
                key,
                k,
            ));
        }
    } else {
        let rt = r.drop_first();
        let rest = merge_runs(l, rt, key);
        lemma_key_sorted_tail(l, key);
        lemma_key_sorted_tail(r, key);
        lemma_merge_runs(l, rt, key);
        lemma_keys_at_least_weaken(l, key, key(l[0]), key(r[0]));
        lemma_merge_runs_bound(l, rt, key, key(r[0]));
        lemma_key_sorted_cons(r[0], rest, key);
        assert(r =~= seq![r[0]] + rt);
        assert(r =~= rt.insert(0, r[0]));
        assert(m =~= rest.insert(0, r[0]));
        assert(m.to_multiset() =~= l.to_multiset().add(r.to_multiset()));
        assert forall|k: int| #[trigger]
            items_with_key(m, key, k) == items_with_key(l, key, k) + items_with_key(r, key, k) by {
            lemma_items_with_key_cons(r[0], rest, key, k);
            lemma_items_with_key_cons(r[0], rt, key, k);
            assert(items_with_key(rest, key, k) == items_with_key(l, key, k) + items_with_key(
                rt,
                key,
                k,
            ));
            if key(r[0]) == k {
                // every key of the left run is above `k`: it has no such item
                lemma_keys_at_least_weaken(l, key, key(l[0]), k + 1);
                lemma_no_item_below_bound(l, key, k);
            }
            assert(items_with_key(m, key, k) =~= items_with_key(l, key, k) + items_with_key(
                r,
                key,
                k,
            ));
        }
    }
}

/// What merge sort makes of a sequence is ascending, holds the same items,
/// and is stable: for every key, the items with that key stand in the order
/// in which they stood before.
pub proof fn lemma_merge_sorted<T>(s: Seq<T>, key: spec_fn(T) -> int)
    ensures
        key_sorted(merge_sorted(s, key), key),
        merge_sorted(s, key).to_multiset() == s.to_multiset(),
        merge_sorted(s, key).len() == s.len(),
        forall|k: int| #[trigger]
            items_with_key(merge_sorted(s, key), key, k) == items_with_key(s, key, k),
    decreases s.len(),
{
    if s.len() <= 1 {
    } else {
        let h = left_half(s.len()) as int;
        let a = s.take(h);
        let b = s.skip(h);
        let sa = merge_sorted(a, key);
        let sb = merge_sorted(b, key);
        lemma_merge_sorted(a, key);
        lemma_merge_sorted(b, key);
        lemma_merge_runs(sa, sb, key);
        assert(s =~= a + b);
        vstd::seq_lib::lemma_multiset_commutative(a, b);
        assert forall|k: int| #[trigger]
            items_with_key(merge_sorted(s, key), key, k) == items_with_key(s, key, k) by {
            Seq::filter_distributes_over_add(a, b, has_key(key, k));
            assert(items_with_key(merge_runs(sa, sb, key), key, k) == items_with_key(sa, key, k)
                + items_with_key(sb, key, k));
        }
    }
}

/// The keys of the items of `s`, in their order.
pub open spec fn keys_of<T>(s: Seq<T>, key: spec_fn(T) -> int) -> Seq<int> {
    Seq::new(s.len(), |i: int| key(s[i]))
}

/// Sequences with the same keys are equally long and have the same key at
/// every place.
proof fn lemma_keys_of_same<T, U>(a: Seq<T>, key: spec_fn(T) -> int, b: Seq<U>, key2: spec_fn(U) -> int)
    requires
        keys_of(a, key) == keys_of(b, key2),
    ensures
        a.len() == b.len(),
        forall|i: int| 0 <= i < a.len() ==> key(#[trigger] a[i]) == key2(b[i]),
{
    assert(keys_of(a, key).len() == a.len());
    assert(keys_of(b, key2).len() == b.len());
    assert forall|i: int| 0 <= i < a.len() implies key(#[trigger] a[i]) == key2(b[i]) by {
        assert(keys_of(a, key)[i] == key(a[i]));
        assert(keys_of(b, key2)[i] == key2(b[i]));
    }
}

/// Sequences with the same keys have the same keys in any part.
proof fn lemma_keys_of_subrange<T, U>(
    a: Seq<T>,
    key: spec_fn(T) -> int,
    b: Seq<U>,
    key2: spec_fn(U) -> int,
    lo: int,
    hi: int,
)
    requires
        keys_of(a, key) == keys_of(b, key2),
        0 <= lo <= hi <= a.len(),
    ensures
        keys_of(a.subrange(lo, hi), key) == keys_of(b.subrange(lo, hi), key2),
{
    lemma_keys_of_same(a, key, b, key2);
    let pa = a.subrange(lo, hi);
    let pb = b.subrange(lo, hi);
    assert forall|i: int| 0 <= i < hi - lo implies keys_of(pa, key)[i] == keys_of(pb, key2)[i] by {
        assert(pa[i] == a[i + lo]);
        assert(pb[i] == b[i + lo]);
    }
    assert(keys_of(pa, key) =~= keys_of(pb, key2));
}

/// The keys of a sequence that begins with `x`.
proof fn lemma_keys_of_cons<T>(x: T, rest: Seq<T>, key: spec_fn(T) -> int)
    ensures
        keys_of(seq![x] + rest, key) == seq![key(x)] + keys_of(rest, key),
{
    assert(keys_of(seq![x] + rest, key) =~= seq![key(x)] + keys_of(rest, key));
}

/// The merge looks at keys only: runs with the same keys, place by place,
/// merge to sequences with the same keys.
pub proof fn lemma_merge_runs_keys<T, U>(
    l: Seq<T>,
    r: Seq<T>,
    key: spec_fn(T) -> int,
    l2: Seq<U>,
    r2: Seq<U>,
    key2: spec_fn(U) -> int,
)
    requires
        keys_of(l, key) == keys_of(l2, key2),
        keys_of(r, key) == keys_of(r2, key2),
    ensures
        keys_of(merge_runs(l, r, key), key) == keys_of(merge_runs(l2, r2, key2), key2),
    decreases l.len() + r.len(),
{
    lemma_keys_of_same(l, key, l2, key2);
    lemma_keys_of_same(r, key, r2, key2);
    if l.len() == 0 || r.len() == 0 {
    } else {
        assert(key(l[0]) == key2(l2[0]));
        assert(key(r[0]) == key2(r2[0]));
        if key(l[0]) <= key(r[0]) {
            lemma_keys_of_subrange(l, key, l2, key2, 1, l.len() as int);
            lemma_merge_runs_keys(l.drop_first(), r, key, l2.drop_first(), r2, key2);
            lemma_keys_of_cons(l[0], merge_runs(l.drop_first(), r, key), key);
            lemma_keys_of_cons(l2[0], merge_runs(l2.drop_first(), r2, key2), key2);
        } else {
            lemma_keys_of_subrange(r, key, r2, key2, 1, r.len() as int);
            lemma_merge_runs_keys(l, r.drop_first(), key, l2, r2.drop_first(), key2);
            lemma_keys_of_cons(r[0], merge_runs(l, r.drop_first(), key), key);
            lemma_keys_of_cons(r2[0], merge_runs(l2, r2.drop_first(), key2), key2);
        }
    }
}

/// Merge sort looks at keys only: sequences with the same keys, place by
/// place, are sorted to sequences with the same keys.
pub proof fn lemma_merge_sorted_keys<T, U>(
    a: Seq<T>,
    key: spec_fn(T) -> int,
    b: Seq<U>,
    key2: spec_fn(U) -> int,
)
    requires
        keys_of(a, key) == keys_of(b, key2),
    ensures
        keys_of(merge_sorted(a, key), key) == keys_of(merge_sorted(b, key2), key2),
    decreases a.len(),
{
    lemma_keys_of_same(a, key, b, key2);
    if a.len() > 1 {
        let h = left_half(a.len()) as int;
        lemma_keys_of_subrange(a, key, b, key2, 0, h);
        lemma_keys_of_subrange(a, key, b, key2, h, a.len() as int);
        assert(a.take(h) =~= a.subrange(0, h));
        assert(b.take(h) =~= b.subrange(0, h));
        assert(a.skip(h) =~= a.subrange(h, a.len() as int));
        assert(b.skip(h) =~= b.subrange(h, b.len() as int));
        lemma_merge_sorted_keys(a.take(h), key, b.take(h), key2);
        lemma_merge_sorted_keys(a.skip(h), key, b.skip(h), key2);
        lemma_merge_runs_keys(
            merge_sorted(a.take(h), key),
            merge_sorted(a.skip(h), key),
            key,
            merge_sorted(b.take(h), key2),
            merge_sorted(b.skip(h), key2),
            key2,
        );
    }
}

/// Merge sort is stable. Let the items of `input` be told apart in any way:
/// let `tagged` be a sequence of items of any kind that has, place by place,
/// the keys that `input` has. Then what `merge_sort` leaves of `input` is,
/// place by place, the keys of a rearrangement of `tagged` in which the
/// items with any one key stand in the order in which they stood before.
pub proof fn lemma_merge_sort_stable<T>(input: Seq<i32>, tagged: Seq<T>, key: spec_fn(T) -> int)
    requires
        keys_of(tagged, key) == keys_of(input, by_value()),
    ensures
        keys_of(merge_sorted(input, by_value()), by_value()) == keys_of(
            merge_sorted(tagged, key),
            key,
        ),
        merge_sorted(tagged, key).to_multiset() == tagged.to_multiset(),
        forall|k: int| #[trigger]
            items_with_key(merge_sorted(tagged, key), key, k) == items_with_key(tagged, key, k),
{
    lemma_merge_sorted_keys(input, by_value(), tagged, key);
    lemma_merge_sorted(tagged, key);
}

/// Ordered by their own value, ascending by key is ascending.
pub proof fn lemma_key_sorted_by_value(s: Seq<i32>)
    ensures
        key_sorted(s, by_value()) <==> sorted(s),
{
}

/// A range replaced by a rearrangement of itself leaves a rearrangement of
/// the whole.
pub proof fn lemma_with_range_permutes(arr: Seq<i32>, lo: int, hi: int, mid: Seq<i32>)
    requires
        0 <= lo <= hi <= arr.len(),
        permutes(mid, arr.subrange(lo, hi)),
    ensures
        permutes(with_range(arr, lo, hi, mid), arr),
        with_range(arr, lo, hi, mid).len() == arr.len(),
{
    let part = arr.subrange(lo, hi);
    crate::order::lemma_permutes_len(mid, part);
    assert(arr =~= arr.take(lo) + part + arr.skip(hi));
    vstd::seq_lib::lemma_multiset_commutative(arr.take(lo), part);
    vstd::seq_lib::lemma_multiset_commutative(arr.take(lo) + part, arr.skip(hi));
    vstd::seq_lib::lemma_multiset_commutative(arr.take(lo), mid);
    vstd::seq_lib::lemma_multiset_commutative(arr.take(lo) + mid, arr.skip(hi));
}

/// One step of `merge_runs`, stated over the unread rests of two runs.
proof fn lemma_merge_runs_step(l: Seq<i32>, r: Seq<i32>, i: int, j: int)
    requires
        0 <= i <= l.len(),
        0 <= j <= r.len(),
    ensures
        i < l.len() && (j == r.len() || l[i] <= r[j]) ==> merge_runs(
            l.skip(i),
            r.skip(j),
            by_value(),
        ) == seq![l[i]] + merge_runs(l.skip(i + 1), r.skip(j), by_value()),
        j < r.len() && (i == l.len() || l[i] > r[j]) ==> merge_runs(
            l.skip(i),
            r.skip(j),
            by_value(),
        ) == seq![r[j]] + merge_runs(l.skip(i), r.skip(j + 1), by_value()),
        i == l.len() && j == r.len() ==> merge_runs(l.skip(i), r.skip(j), by_value())
            == Seq::<i32>::empty(),
{
    let key = by_value();
    let ls = l.skip(i);
    let rs = r.skip(j);
    if i < l.len() {
        assert(ls.drop_first() == l.skip(i + 1));
        assert(ls[0] == l[i]);
    }
    if j < r.len() {
        assert(rs.drop_first() == r.skip(j + 1));
        assert(rs[0] == r[j]);
    }
    if i < l.len() && j == r.len() {
        // the right run is used up: the rest of the left run follows as it is
        assert(merge_runs(ls, rs, key) == ls);
        let rest = l.skip(i + 1);
        assert(merge_runs(rest, rs, key) == rest) by {
            if rest.len() == 0 {
                assert(rs =~= rest);
            }
        }
        assert(ls =~= seq![l[i]] + rest);
    }
    if j < r.len() && i == l.len() {
        assert(merge_runs(ls, rs, key) == rs);
        let rest = r.skip(j + 1);
        assert(merge_runs(ls, rest, key) == rest);
        assert(rs =~= seq![r[j]] + rest);
    }
    if i == l.len() && j == r.len() {
        assert(rs =~= Seq::<i32>::empty());
    }
}

/// A copy of the items of `arr` from `from` up to `to`, exclusive.
fn copy_range(arr: &Vec<i32>, from: usize, to: usize) -> (out: Vec<i32>)
    requires
        from <= to <= arr.len(),
    ensures
        out@ == arr@.subrange(from as int, to as int),
{
    let mut out: Vec<i32> = Vec::new();
    let mut k: usize = from;
    while k < to
        invariant
            from <= k <= to <= arr.len(),
            out@ == arr@.subrange(from as int, k as int),
        decreases to - k,
    {
        out.push(arr[k]);
        k += 1;
        assert(out@ =~= arr@.subrange(from as int, k as int));
    }
    out
}

/// Merges the two adjacent runs `left..=mid` and `mid + 1..=right` of `arr`
/// into the range they occupy. The rest of `arr` stays as it is.
pub fn merge(arr: &mut Vec<i32>, left: usize, mid: usize, right: usize)
    requires
        left <= mid <= right < old(arr).len(),
    ensures
        final(arr)@ == with_range(
            old(arr)@,
            left as int,
            right + 1,
            merge_runs(
                old(arr)@.subrange(left as int, mid + 1),
                old(arr)@.subrange(mid + 1, right + 1),
                by_value(),
            ),
        ),
        final(arr)@.len() == old(arr)@.len(),
{
    let left_len: usize = mid - left + 1;
    let right_len: usize = right - mid;

    let left_arr: Vec<i32> = copy_range(arr, left, mid + 1);
    let right_arr: Vec<i32> = copy_range(arr, mid + 1, right + 1);

    let ghost l = left_arr@;
    let ghost r = right_arr@;
    let ghost whole = merge_runs(l, r, by_value());

    let mut i: usize = 0;
    let mut j: usize = 0;
    let mut k: usize = left;

    proof {
        assert(l.skip(0) == l);
        assert(r.skip(0) == r);
        assert(arr@.subrange(left as int, k as int) =~= Seq::<i32>::empty());
    }

    while i < left_len && j < right_len
        invariant
            left <= mid <= right < arr.len(),
            arr.len() == old(arr).len(),
            left_len == mid - left + 1,
            right_len == right - mid,
            l == left_arr@,
            r == right_arr@,
            l.len() == left_len,
            r.len() == right_len,
            i <= left_len,
            j <= right_len,
            k == left + i + j,
            arr@.take(left as int) == old(arr)@.take(left as int),
            arr@.skip(right + 1) == old(arr)@.skip(right + 1),
            arr@.subrange(left as int, k as int) + merge_runs(l.skip(i as int), r.skip(j as int), by_value())
                == whole,
        decreases left_len - i + right_len - j,
    {
        let ghost before = arr@;
        proof {
            lemma_merge_runs_step(l, r, i as int, j as int);
        }
        if left_arr[i] <= right_arr[j] {
            arr[k] = left_arr[i];
            i += 1;
        } else {
            arr[k] = right_arr[j];
            j += 1;
        }
        k += 1;
        proof {
            assert(arr@.take(left as int) =~= before.take(left as int));
            assert(arr@.skip(right + 1) =~= before.skip(right + 1));
            assert(arr@.subrange(left as int, k as int) =~= before.subrange(left as int, k - 1)
                + seq![arr@[k - 1]]);
        }
    }

    while i < left_len
        invariant
            left <= mid <= right < arr.len(),
            arr.len() == old(arr).len(),
            left_len == mid - left + 1,
            right_len == right - mid,
            l == left_arr@,
            r == right_arr@,
            l.len() == left_len,
            r.len() == right_len,
            i <= left_len,
            j <= right_len,
            i < left_len ==> j == right_len,
            k == left + i + j,
            arr@.take(left as int) == old(arr)@.take(left as int),
            arr@.skip(right + 1) == old(arr)@.skip(right + 1),
            arr@.subrange(left as int, k as int) + merge_runs(l.skip(i as int), r.skip(j as int), by_value())
                == whole,
        decreases left_len - i,
    {
        let ghost before = arr@;
        proof {
            lemma_merge_runs_step(l, r, i as int, j as int);
        }
        arr[k] = left_arr[i];
        i += 1;
        k += 1;
        proof {
            assert(arr@.take(left as int) =~= before.take(left as int));
            assert(arr@.skip(right + 1) =~= before.skip(right + 1));
            assert(arr@.subrange(left as int, k as int) =~= before.subrange(left as int, k - 1)
                + seq![arr@[k - 1]]);
        }
    }

    while j < right_len
        invariant
            left <= mid <= right < arr.len(),
            arr.len() == old(arr).len(),
            left_len == mid - left + 1,
            right_len == right - mid,
            l == left_arr@,
            r == right_arr@,
            l.len() == left_len,
            r.len() == right_len,
            i == left_len,
            j <= right_len,
            k == left + i + j,
            arr@.take(left as int) == old(arr)@.take(left as int),
            arr@.skip(right + 1) == old(arr)@.skip(right + 1),
            arr@.subrange(left as int, k as int) + merge_runs(l.skip(i as int), r.skip(j as int), by_value())
                == whole,
        decreases right_len - j,
    {
        let ghost before = arr@;
        proof {
            lemma_merge_runs_step(l, r, i as int, j as int);
        }
        arr[k] = right_arr[j];
        j += 1;
        k += 1;
        proof {
            assert(arr@.take(left as int) =~= before.take(left as int));
            assert(arr@.skip(right + 1) =~= before.skip(right + 1));
            assert(arr@.subrange(left as int, k as int) =~= before.subrange(left as int, k - 1)
                + seq![arr@[k - 1]]);
        }
    }

    proof {
        lemma_merge_runs_step(l, r, i as int, j as int);
        assert(arr@.subrange(left as int, right + 1) =~= whole);
        assert(arr@ =~= with_range(old(arr)@, left as int, right + 1, whole));
    }
}

/// Sorts the range `left..=right` of `arr` by merge sort. The rest of `arr`
/// stays as it is; an empty range (`left >= right`) changes nothing.
pub fn merge_sort_helper(arr: &mut Vec<i32>, left: usize, right: usize)
    requires
        left < right ==> right < old(arr).len(),
    ensures
        left < right ==> final(arr)@ == with_range(
            old(arr)@,
            left as int,
            right + 1,
            merge_sorted(old(arr)@.subrange(left as int, right + 1), by_value()),
        ),
        left >= right ==> final(arr)@ == old(arr)@,
        final(arr)@.len() == old(arr)@.len(),
        permutes(final(arr)@, old(arr)@),
    decreases right - left,
{
    if left < right {
        let mid: usize = left + (right - left) / 2;
        let ghost a0 = arr@;
        let ghost whole = a0.subrange(left as int, right + 1);
        let ghost lo = a0.subrange(left as int, mid + 1);
        let ghost hi = a0.subrange(mid + 1, right + 1);
        let ghost slo = merge_sorted(lo, by_value());
        let ghost shi = merge_sorted(hi, by_value());
        proof {
            lemma_merge_sorted(lo, by_value());
            lemma_merge_sorted(hi, by_value());
        }

        merge_sort_helper(arr, left, mid);
        let ghost a1 = arr@;
        proof {
            assert(a1 =~= with_range(a0, left as int, mid + 1, slo)) by {
                if left == mid {
                    assert(slo == lo);
                }
            }
            assert(a1.subrange(mid + 1, right + 1) =~= hi);
        }

        merge_sort_helper(arr, mid + 1, right);
        let ghost a2 = arr@;
        proof {
            assert(a2 =~= with_range(a1, mid + 1, right + 1, shi)) by {
                if mid + 1 == right {
                    assert(shi == hi);
                }
            }
            assert(a2.subrange(left as int, mid + 1) =~= slo);
            assert(a2.subrange(mid + 1, right + 1) =~= shi);
        }

        merge(arr, left, mid, right);
        proof {
            let h = left_half(whole.len()) as int;
            assert(h == mid - left + 1);
            assert(whole.take(h) =~= lo);
            assert(whole.skip(h) =~= hi);
            assert(merge_sorted(whole, by_value()) == merge_runs(slo, shi, by_value()));
            assert(arr@ =~= with_range(
                a0,
                left as int,
                right + 1,
                merge_sorted(whole, by_value()),
            ));
            lemma_merge_sorted(whole, by_value());
            lemma_with_range_permutes(a0, left as int, right + 1, merge_sorted(whole, by_value()));
        }
    }
}

/// Sorts `arr` by merge sort: afterwards it is ascending and holds the
/// items it held before.
pub fn merge_sort(arr: &mut Vec<i32>)
    ensures
        final(arr)@ == merge_sorted(old(arr)@, by_value()),
        is_sort_of(final(arr)@, old(arr)@),
        final(arr)@.len() == old(arr)@.len(),
{
    let len: usize = arr.len();
    proof {
        lemma_merge_sorted(arr@, by_value());
        lemma_key_sorted_by_value(merge_sorted(arr@, by_value()));
    }
    if len <= 1 {
        return ;
    }
    merge_sort_helper(arr, 0, len - 1);
    proof {
        assert(old(arr)@.subrange(0, len as int) =~= old(arr)@);
        assert(arr@ =~= merge_sorted(old(arr)@, by_value()));
    }
}

} // verus!
