//! Stable chronological ordering of keyed items.
//!
//! Bars are replayed oldest first; bars that share a timestamp keep the order
//! in which they were supplied. The order is computed as a permutation of
//! positions so that callers can reorder payloads the library never inspects.

use vstd::prelude::*;

verus! {

/// Position `a` comes before position `b`: earlier key, or equal key and
/// earlier position.
pub open spec fn precedes(keys: Seq<i128>, a: int, b: int) -> bool {
    keys[a] < keys[b] || (keys[a] == keys[b] && a < b)
}

/// `order` lists every position of `keys` once, oldest key first, ties in
/// the order in which they were supplied.
pub open spec fn is_stable_order(keys: Seq<i128>, order: Seq<usize>) -> bool {
    &&& order.len() == keys.len()
    &&& forall|i: int| 0 <= i < order.len() ==> #[trigger] order[i] < keys.len()
    &&& forall|i: int, j: int|
        0 <= i < j < order.len() ==> precedes(keys, #[trigger] order[i] as int, #[trigger] order[j] as int)
}

/// The keys read through `order`.
pub open spec fn reorder(keys: Seq<i128>, order: Seq<usize>) -> Seq<i128> {
    Seq::new(order.len(), |i: int| keys[order[i] as int])
}

pub open spec fn is_sorted(s: Seq<i128>) -> bool {
    forall|i: int, j: int| 0 <= i <= j < s.len() ==> #[trigger] s[i] <= #[trigger] s[j]
}

/// Reading the keys through a stable order yields them in non-decreasing order.
pub proof fn lemma_stable_order_sorts(keys: Seq<i128>, order: Seq<usize>)
    requires
        is_stable_order(keys, order),
    ensures
        is_sorted(reorder(keys, order)),
{
    let s = reorder(keys, order);
    assert forall|i: int, j: int| 0 <= i <= j < s.len() implies #[trigger] s[i] <= #[trigger] s[j] by {
        if i < j {
            assert(precedes(keys, order[i] as int, order[j] as int));
        }
    }
}

/// Every position appears in a stable order: it is a permutation.
pub proof fn lemma_stable_order_covers(keys: Seq<i128>, order: Seq<usize>, p: int)
    requires
        is_stable_order(keys, order),
        0 <= p < keys.len(),
    ensures
        exists|i: int| 0 <= i < order.len() && order[i] == p,
{
    // The entries are pairwise distinct and all below `keys.len()`, and there
    // are `keys.len()` of them, so each position in range must occur.
    let n = keys.len();
    let set_all = Set::new(|x: int| 0 <= x < n);
    let img = Set::new(|x: int| exists|i: int| 0 <= i < order.len() && order[i] as int == x);
    if !(exists|i: int| 0 <= i < order.len() && order[i] == p) {
        // The image has n elements but is a subset of [0, n) minus {p}.
        lemma_distinct_image_len(keys, order, order.len() as int);
        assert(img =~= Set::new(|x: int| exists|i: int| 0 <= i < order.len() as int && order[i] as int == x));
        let smaller = set_all.remove(p);
        assert(img.subset_of(smaller));
        vstd::set_lib::lemma_int_range(0, n as int);
        assert(set_all =~= vstd::set_lib::set_int_range(0, n as int));
        vstd::set_lib::lemma_len_subset(img, smaller);
        assert(false);
    }
}

/// The first `k` entries of a stable order are `k` distinct positions.
proof fn lemma_distinct_image_len(keys: Seq<i128>, order: Seq<usize>, k: int)
    requires
        is_stable_order(keys, order),
        0 <= k <= order.len(),
    ensures
        Set::new(|x: int| exists|i: int| 0 <= i < k && order[i] as int == x).finite(),
        Set::new(|x: int| exists|i: int| 0 <= i < k && order[i] as int == x).len() == k,
    decreases k,
{
    let img = Set::new(|x: int| exists|i: int| 0 <= i < k && order[i] as int == x);
    if k == 0 {
        assert(img =~= Set::empty());
    } else {
        lemma_distinct_image_len(keys, order, k - 1);
        let prev = Set::new(|x: int| exists|i: int| 0 <= i < k - 1 && order[i] as int == x);
        assert(img =~= prev.insert(order[k - 1] as int));
        if prev.contains(order[k - 1] as int) {
            let i = choose|i: int| 0 <= i < k - 1 && #[trigger] order[i] as int == order[k - 1] as int;
            assert(precedes(keys, order[i] as int, order[k - 1] as int));
        }
    }
}

/// `v` lists positions `lo..hi` of `keys` in stable chronological order.
pub open spec fn is_sorted_range(keys: Seq<i128>, v: Seq<usize>, lo: int, hi: int) -> bool {
    &&& v.len() == hi - lo
    &&& forall|i: int| 0 <= i < v.len() ==> lo <= #[trigger] v[i] < hi
    &&& forall|i: int, j: int|
        0 <= i < j < v.len() ==> precedes(keys, #[trigger] v[i] as int, #[trigger] v[j] as int)
}

/// Merges the ordered positions `lo..mid` and `mid..hi` into one ordered run.
fn merge(keys: &Vec<i128>, a: &Vec<usize>, b: &Vec<usize>, lo: usize, mid: usize, hi: usize) -> (r: Vec<
    usize,
>)
    requires
        lo <= mid <= hi <= keys@.len(),
        is_sorted_range(keys@, a@, lo as int, mid as int),
        is_sorted_range(keys@, b@, mid as int, hi as int),
    ensures
        is_sorted_range(keys@, r@, lo as int, hi as int),
{
    let mut r: Vec<usize> = Vec::new();
    let mut i: usize = 0;
    let mut j: usize = 0;
    while i < a.len() || j < b.len()
        invariant
            lo <= mid <= hi <= keys@.len(),
            is_sorted_range(keys@, a@, lo as int, mid as int),
            is_sorted_range(keys@, b@, mid as int, hi as int),
            i <= a@.len(),
            j <= b@.len(),
            r@.len() == i + j,
            forall|k: int| 0 <= k < r@.len() ==> lo <= #[trigger] r@[k] < hi,
            forall|k1: int, k2: int|
                0 <= k1 < k2 < r@.len() ==> precedes(keys@, #[trigger] r@[k1] as int, #[trigger] r@[k2] as int),
            r@.len() > 0 ==> forall|k: int|
                i <= k < a@.len() ==> precedes(keys@, r@.last() as int, #[trigger] a@[k] as int),
            r@.len() > 0 ==> forall|k: int|
                j <= k < b@.len() ==> precedes(keys@, r@.last() as int, #[trigger] b@[k] as int),
        decreases a@.len() + b@.len() - i - j,
    {
        let take_a = if i < a.len() && j < b.len() {
            let x = a[i];
            let y = b[j];
            keys[x] < keys[y] || (keys[x] == keys[y] && x < y)
        } else {
            i < a.len()
        };
        let ghost old_r = r@;
        if take_a {
            let x = a[i];
            proof {
                if j < b@.len() {
                    assert forall|k: int| j <= k < b@.len() implies precedes(keys@, x as int, #[trigger] b@[k] as int) by {
                        if k > j {
                            assert(precedes(keys@, b@[j as int] as int, b@[k] as int));
                        }
                    }
                }
                assert forall|k: int| i < k < a@.len() implies precedes(keys@, x as int, #[trigger] a@[k] as int) by {
                    assert(precedes(keys@, a@[i as int] as int, a@[k] as int));
                }
                if old_r.len() > 0 {
                    assert(precedes(keys@, old_r.last() as int, x as int));
                    assert forall|k: int| 0 <= k < old_r.len() implies precedes(keys@, #[trigger] old_r[k] as int, x as int) by {
                        if k < old_r.len() - 1 {
                            assert(precedes(keys@, old_r[k] as int, old_r[old_r.len() - 1] as int));
                        }
                    }
                }
            }
            r.push(x);
            i = i + 1;
        } else {
            let y = b[j];
            proof {
                if i < a@.len() {
                    assert(a@[i as int] < mid <= y);
                    assert(precedes(keys@, y as int, a@[i as int] as int));
                    assert forall|k: int| i <= k < a@.len() implies precedes(keys@, y as int, #[trigger] a@[k] as int) by {
                        if k > i {
                            assert(precedes(keys@, a@[i as int] as int, a@[k] as int));
                        }
                    }
                }
                assert forall|k: int| j < k < b@.len() implies precedes(keys@, y as int, #[trigger] b@[k] as int) by {
                    assert(precedes(keys@, b@[j as int] as int, b@[k] as int));
                }
                if old_r.len() > 0 {
                    assert(precedes(keys@, old_r.last() as int, y as int));
                    assert forall|k: int| 0 <= k < old_r.len() implies precedes(keys@, #[trigger] old_r[k] as int, y as int) by {
                        if k < old_r.len() - 1 {
                            assert(precedes(keys@, old_r[k] as int, old_r[old_r.len() - 1] as int));
                        }
                    }
                }
            }
            r.push(y);
            j = j + 1;
        }
        proof {
            assert(r@ == old_r.push(r@.last()));
        }
    }
    r
}

/// Orders positions `lo..hi` of `keys` chronologically, ties by position.
fn sort_range(keys: &Vec<i128>, lo: usize, hi: usize) -> (r: Vec<usize>)
    requires
        lo <= hi <= keys@.len(),
    ensures
        is_sorted_range(keys@, r@, lo as int, hi as int),
    decreases hi - lo,
{
    if hi - lo <= 1 {
        let mut r: Vec<usize> = Vec::new();
        if hi - lo == 1 {
            r.push(lo);
        }
        r
    } else {
        let mid = lo + (hi - lo) / 2;
        let a = sort_range(keys, lo, mid);
        let b = sort_range(keys, mid, hi);
        merge(keys, &a, &b, lo, mid, hi)
    }
}

/// Computes the stable chronological order of `keys` (a merge sort).
pub fn stable_order(keys: &Vec<i128>) -> (order: Vec<usize>)
    ensures
        is_stable_order(keys@, order@),
{
    sort_range(keys, 0, keys.len())
}

} // verus!

verus! {

/// `r` splits a sorted sequence into the keys before `x` and the keys at or
/// after `x`.
pub open spec fn is_lower_bound(s: Seq<i128>, x: int, r: int) -> bool {
    &&& 0 <= r <= s.len()
    &&& forall|i: int| 0 <= i < r ==> #[trigger] s[i] < x
    &&& forall|i: int| r <= i < s.len() ==> #[trigger] s[i] >= x
}

/// First position of a sorted sequence whose key is not before `x`.
pub fn lower_bound(s: &Vec<i128>, x: i128) -> (r: usize)
    requires
        is_sorted(s@),
    ensures
        is_lower_bound(s@, x as int, r as int),
{
    let mut lo: usize = 0;
    let mut hi: usize = s.len();
    while lo < hi
        invariant
            is_sorted(s@),
            lo <= hi <= s@.len(),
            forall|i: int| 0 <= i < lo ==> #[trigger] s@[i] < x,
            forall|i: int| hi <= i < s@.len() ==> #[trigger] s@[i] >= x,
        decreases hi - lo,
    {
        let mid = lo + (hi - lo) / 2;
        if s[mid] < x {
            proof {
                assert forall|i: int| 0 <= i <= mid implies #[trigger] s@[i] < x by {
                    assert(s@[i] <= s@[mid as int]);
                }
            }
            lo = mid + 1;
        } else {
            proof {
                assert forall|i: int| mid <= i < s@.len() implies #[trigger] s@[i] >= x by {
                    assert(s@[mid as int] <= s@[i]);
                }
            }
            hi = mid;
        }
    }
    lo
}

} // verus!

verus! {

/// Smallest key of a non-empty sequence.
pub open spec fn earliest(s: Seq<i128>) -> int
    decreases s.len(),
{
    if s.len() <= 1 {
        s[0] as int
    } else {
        let rest = earliest(s.drop_last());
        if s.last() < rest { s.last() as int } else { rest }
    }
}

/// Largest key of a non-empty sequence.
pub open spec fn latest(s: Seq<i128>) -> int
    decreases s.len(),
{
    if s.len() <= 1 {
        s[0] as int
    } else {
        let rest = latest(s.drop_last());
        if s.last() > rest { s.last() as int } else { rest }
    }
}

proof fn lemma_extremes(s: Seq<i128>)
    requires
        s.len() >= 1,
    ensures
        exists|i: int| 0 <= i < s.len() && s[i] == earliest(s),
        exists|i: int| 0 <= i < s.len() && s[i] == latest(s),
        forall|i: int| 0 <= i < s.len() ==> earliest(s) <= #[trigger] s[i] <= latest(s),
    decreases s.len(),
{
    if s.len() > 1 {
        let r = s.drop_last();
        lemma_extremes(r);
        assert forall|i: int| 0 <= i < s.len() implies earliest(s) <= #[trigger] s[i] <= latest(s) by {
            if i < s.len() - 1 {
                assert(s[i] == r[i]);
            }
        }
        let a = choose|i: int| 0 <= i < r.len() && r[i] == earliest(r);
        let b = choose|i: int| 0 <= i < r.len() && r[i] == latest(r);
        assert(s[a] == r[a] && s[b] == r[b]);
        assert(s[s.len() - 1] == s.last());
    } else {
        assert(s[0] == earliest(s));
    }
}

/// Read through a stable order, the first key is the earliest and the last
/// key is the latest.
pub proof fn lemma_stable_order_extremes(keys: Seq<i128>, order: Seq<usize>)
    requires
        is_stable_order(keys, order),
        keys.len() >= 1,
    ensures
        reorder(keys, order)[0] == earliest(keys),
        reorder(keys, order)[keys.len() - 1] == latest(keys),
{
    let s = reorder(keys, order);
    let n = keys.len() as int;
    lemma_stable_order_sorts(keys, order);
    lemma_extremes(keys);
    let a = choose|i: int| 0 <= i < keys.len() && keys[i] == earliest(keys);
    let b = choose|i: int| 0 <= i < keys.len() && keys[i] == latest(keys);
    lemma_stable_order_covers(keys, order, a);
    lemma_stable_order_covers(keys, order, b);
    let ia = choose|i: int| 0 <= i < order.len() && order[i] == a;
    let ib = choose|i: int| 0 <= i < order.len() && order[i] == b;
    assert(s[0] <= s[ia]);
    assert(s[ib] <= s[n - 1]);
    assert(keys[order[0] as int] >= earliest(keys));
    assert(keys[order[n - 1] as int] <= latest(keys));
}

} // verus!

verus! {

/// Strict lexicographic order on byte strings (the order of `String`s).
pub open spec fn bytes_before(a: Seq<u8>, b: Seq<u8>) -> bool
    decreases a.len(),
{
    if a.len() == 0 {
        b.len() > 0
    } else if b.len() == 0 {
        false
    } else if a[0] != b[0] {
        a[0] < b[0]
    } else {
        bytes_before(a.drop_first(), b.drop_first())
    }
}

/// The byte order is a strict total order.
pub proof fn lemma_bytes_before_total(a: Seq<u8>, b: Seq<u8>)
    ensures
        !bytes_before(a, a),
        bytes_before(a, b) ==> !bytes_before(b, a),
        a != b ==> bytes_before(a, b) || bytes_before(b, a),
    decreases a.len(),
{
    if a.len() > 0 && b.len() > 0 {
        lemma_bytes_before_total(a.drop_first(), b.drop_first());
        lemma_bytes_before_total(a.drop_first(), a.drop_first());
        if a[0] == b[0] && a != b {
            assert(a =~= seq![a[0]] + a.drop_first());
            assert(b =~= seq![b[0]] + b.drop_first());
        }
    } else if a.len() > 0 {
        lemma_bytes_before_total(a.drop_first(), a.drop_first());
    } else if b.len() == 0 {
        assert(a =~= b);
    }
}

pub proof fn lemma_bytes_before_transitive(a: Seq<u8>, b: Seq<u8>, c: Seq<u8>)
    requires
        bytes_before(a, b),
        bytes_before(b, c),
    ensures
        bytes_before(a, c),
    decreases a.len(),
{
    if a.len() > 0 && b.len() > 0 && c.len() > 0 {
        if a[0] == b[0] && b[0] == c[0] {
            lemma_bytes_before_transitive(a.drop_first(), b.drop_first(), c.drop_first());
        }
    }
}

/// Compares two byte strings in lexicographic order.
pub fn bytes_less(a: &[u8], b: &[u8]) -> (r: bool)
    ensures
        r == bytes_before(a@, b@),
{
    let mut i: usize = 0;
    proof {
        assert(a@.skip(0) =~= a@);
        assert(b@.skip(0) =~= b@);
    }
    while i < a.len() && i < b.len() && a[i] == b[i]
        invariant
            i <= a@.len(),
            i <= b@.len(),
            bytes_before(a@, b@) == bytes_before(a@.skip(i as int), b@.skip(i as int)),
        decreases a@.len() - i,
    {
        proof {
            let sa = a@.skip(i as int);
            let sb = b@.skip(i as int);
            assert(sa.drop_first() =~= a@.skip(i + 1));
            assert(sb.drop_first() =~= b@.skip(i + 1));
            assert(sa[0] == sb[0]);
        }
        i = i + 1;
    }
    proof {
        let sa = a@.skip(i as int);
        let sb = b@.skip(i as int);
        if i < a.len() && i < b.len() {
            assert(sa[0] == a@[i as int] && sb[0] == b@[i as int]);
        }
    }
    if i < a.len() && i < b.len() {
        a[i] < b[i]
    } else {
        i == a.len() && i < b.len()
    }
}

} // verus!
