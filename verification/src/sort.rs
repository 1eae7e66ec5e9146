//! The classic sorting algorithms, each proved to leave its input
//! sorted and to preserve the multiset of elements: bubble, insertion
//! and selection sort, merge sort, quick sort, and the linear bucket
//! and counting sorts.

use vstd::prelude::*;

verus! {

use crate::order::lawful_ord;
use crate::order::le;
use crate::order::lemma_lawful_ord;
use crate::order::lemma_merge_sorted;
use crate::order::merge_seqs;
use crate::order::sorted;
use vstd::std_specs::cmp::OrdSpec;
use vstd::std_specs::cmp::PartialOrdSpec;

/// The elements from position `k` on are sorted, and every one of them
/// is at least every element before it.
spec fn tail_sorted<T: Ord>(s: Seq<T>, k: int) -> bool {
    forall|p: int, q: int| 0 <= p <= q < s.len() && k <= q ==> le(s[p], s[q])
}

/// The elements before position `k` are sorted, and every one of them
/// is at most every element after it.
spec fn front_sorted<T: Ord>(s: Seq<T>, k: int) -> bool {
    forall|p: int, q: int| 0 <= p <= q < s.len() && p < k ==> le(s[p], s[q])
}

/// Swapping two positions of a sequence keeps its multiset.
pub proof fn lemma_swap_multiset<T>(s: Seq<T>, i: int, j: int)
    requires
        0 <= i < s.len(),
        0 <= j < s.len(),
    ensures
        s.update(i, s[j]).update(j, s[i]).to_multiset() == s.to_multiset(),
{
    broadcast use vstd::seq_lib::group_to_multiset_ensures;

    let s2 = s.update(i, s[j]).update(j, s[i]);
    if i == j {
        assert(s2 =~= s);
    } else {
        assert(s.contains(s[i]));
        assert(s.update(i, s[j]).contains(s.update(i, s[j])[j]));
        assert(s2.to_multiset() =~= s.to_multiset());
    }
}

/// Bubble sort: repeatedly swaps adjacent out-of-order elements, each
/// pass floating the largest remaining element to its final position.
pub fn bubble<T: Ord + Copy>(v: &mut Vec<T>)
    requires
        lawful_ord::<T>(),
    ensures
        sorted(final(v)@),
        final(v)@.to_multiset() == old(v)@.to_multiset(),
{
    proof {
        lemma_lawful_ord::<T>();
    }
    let n = v.len();
    if n == 0 {
        return ;
    }
    let mut i: usize = 0;
    while i < n
        invariant
            lawful_ord::<T>(),
            n == v@.len(),
            i <= n,
            v@.to_multiset() == old(v)@.to_multiset(),
            tail_sorted(v@, n - i),
        decreases n - i,
    {
        proof {
            lemma_lawful_ord::<T>();
        }
        let mut j: usize = 0;
        while j < n - i - 1
            invariant
                lawful_ord::<T>(),
                n == v@.len(),
                i < n,
                j <= n - i - 1,
                v@.to_multiset() == old(v)@.to_multiset(),
                tail_sorted(v@, n - i),
                forall|p: int| 0 <= p <= j ==> le(v@[p], v@[j as int]),
            decreases n - i - 1 - j,
        {
            proof {
                lemma_lawful_ord::<T>();
            }
            let a = v[j];
            let b = v[j + 1];
            if a.gt(&b) {
                let ghost s = v@;
                v[j] = b;
                v[j + 1] = a;
                proof {
                    assert(v@ =~= s.update(j as int, s[j + 1]).update(j + 1, s[j as int]));
                    lemma_swap_multiset(s, j as int, j + 1);
                }
            }
            j = j + 1;
        }
        proof {
            assert(tail_sorted(v@, n - i - 1));
        }
        i = i + 1;
    }
    proof {
        assert(tail_sorted(v@, 0));
    }
}

/// Insertion sort: grows a sorted prefix by shifting each next element
/// left to its place.
pub fn insert<T: Ord + Copy>(v: &mut Vec<T>)
    requires
        lawful_ord::<T>(),
    ensures
        sorted(final(v)@),
        final(v)@.to_multiset() == old(v)@.to_multiset(),
{
    broadcast use vstd::seq_lib::group_to_multiset_ensures;

    proof {
        lemma_lawful_ord::<T>();
    }
    let n = v.len();
    if n == 0 {
        return ;
    }
    let mut i: usize = 1;
    while i < n
        invariant
            lawful_ord::<T>(),
            n == v@.len(),
            1 <= i <= n,
            v@.to_multiset() == old(v)@.to_multiset(),
            sorted(v@.take(i as int)),
        decreases n - i,
    {
        proof {
            lemma_lawful_ord::<T>();
        }
        let ghost s0 = v@;
        let x = v[i];
        let mut j: usize = i;
        while j > 0
            invariant
                lawful_ord::<T>(),
                n == v@.len(),
                0 <= j <= i < n,
                x == s0[i as int],
                sorted(s0.take(i as int)),
                forall|k: int| 0 <= k < j ==> v@[k] == s0[k],
                forall|k: int| j < k <= i ==> v@[k] == s0[k - 1],
                forall|k: int| i < k < n ==> v@[k] == s0[k],
                forall|k: int| j <= k < i ==> !le(s0[k], x),
            ensures
                0 <= j <= i,
                j == 0 || le(v@[j - 1], x),
                forall|k: int| 0 <= k < j ==> v@[k] == s0[k],
                forall|k: int| j < k <= i ==> v@[k] == s0[k - 1],
                forall|k: int| i < k < n ==> v@[k] == s0[k],
                forall|k: int| j <= k < i ==> !le(s0[k], x),
            decreases j,
        {
            proof {
                lemma_lawful_ord::<T>();
            }
            let prev = v[j - 1];
            if prev.gt(&x) {
                v[j] = prev;
                j = j - 1;
            } else {
                break ;
            }
        }
        v[j] = x;
        proof {
            assert(v@ =~= s0.remove(i as int).insert(j as int, x));
            assert(s0.contains(s0[i as int]));
            vstd::seq_lib::to_multiset_insert(s0.remove(i as int), j as int, x);
            vstd::seq_lib::to_multiset_remove(s0, i as int);
            vstd::seq_lib::to_multiset_contains(s0, x);
            assert(v@.to_multiset() =~= s0.to_multiset());
            assert forall|p: int, q: int| 0 <= p <= q < i + 1 implies #[trigger] le(
                v@.take(i + 1)[p],
                v@.take(i + 1)[q],
            ) by {
                assert(forall|k: int| 0 <= k < j ==> v@[k] == s0[k]);
                assert(v@[j as int] == x);
                assert(forall|k: int| j < k <= i ==> v@[k] == s0[k - 1]);
                let t = s0.take(i as int);
                assert(forall|k: int| 0 <= k < i ==> t[k] == s0[k]);
                if q < j {
                    assert(le(t[p], t[q]));
                } else if p < j && q == j {
                    assert(le(t[p], t[j - 1]));
                    assert(le(s0[j - 1], x));
                } else if p < j && q > j {
                    assert(le(t[p], t[q - 1]));
                } else if p == j && q > j {
                    assert(!le(s0[q - 1], x));
                    assert(le(x, s0[q - 1]));
                } else if p > j && q > j {
                    assert(le(t[p - 1], t[q - 1]));
                }
            }
            assert(sorted(v@.take(i + 1)));
        }
        i = i + 1;
    }
    proof {
        assert(v@.take(n as int) =~= v@);
    }
}

/// Merges the sorted front half `v[..n]` with the sorted back half
/// `v[n..]` into one sorted whole, stably: on ties the front half goes
/// first.
pub fn merge<T: Ord + Copy>(v: &mut Vec<T>, n: usize)
    requires
        lawful_ord::<T>(),
        n <= old(v)@.len(),
        sorted(old(v)@.take(n as int)),
        sorted(old(v)@.skip(n as int)),
    ensures
        final(v)@ == merge_seqs(old(v)@.take(n as int), old(v)@.skip(n as int)),
        sorted(final(v)@),
        final(v)@.to_multiset() == old(v)@.to_multiset(),
        final(v)@.len() == old(v)@.len(),
{
    let ghost a = v@.take(n as int);
    let ghost b = v@.skip(n as int);
    proof {
        lemma_lawful_ord::<T>();
        lemma_merge_sorted(a, b);
        vstd::seq_lib::lemma_multiset_commutative(a, b);
        assert(a + b =~= v@);
    }
    let len = v.len();
    let mut temp: Vec<T> = Vec::new();
    let mut i: usize = 0;
    let mut j: usize = n;
    proof {
        assert(a.skip(0) =~= a);
        assert(b.skip(0) =~= b);
        assert(temp@ + merge_seqs(a, b) =~= merge_seqs(a, b));
    }
    while i < n && j < len
        invariant
            lawful_ord::<T>(),
            v@ == old(v)@,
            v@.len() == len,
            a == v@.take(n as int),
            b == v@.skip(n as int),
            i <= n <= j <= len,
            merge_seqs(a, b) == temp@ + merge_seqs(a.skip(i as int), b.skip(j - n)),
        decreases (n - i) + (len - j),
    {
        proof {
            lemma_lawful_ord::<T>();
        }
        let ghost sa = a.skip(i as int);
        let ghost sb = b.skip(j - n);
        proof {
            assert(sa[0] == a[i as int] && a[i as int] == v@[i as int]);
            assert(sb[0] == b[j - n] && b[j - n] == v@[j as int]);
        }
        let x = v[i];
        let y = v[j];
        if x.gt(&y) {
            temp.push(y);
            j = j + 1;
            proof {
                assert(sb.drop_first() =~= b.skip(j - n));
                assert(merge_seqs(sa, sb) == seq![sb[0]] + merge_seqs(sa, b.skip(j - n)));
                assert(temp@ + merge_seqs(sa, b.skip(j - n)) =~= merge_seqs(a, b));
            }
        } else {
            temp.push(x);
            i = i + 1;
            proof {
                assert(sa.drop_first() =~= a.skip(i as int));
                assert(merge_seqs(sa, sb) == seq![sa[0]] + merge_seqs(a.skip(i as int), sb));
                assert(temp@ + merge_seqs(a.skip(i as int), sb) =~= merge_seqs(a, b));
            }
        }
    }
    if i < n {
        proof {
            assert(b.skip(j - n).len() == 0);
        }
        while i < n
            invariant
                v@ == old(v)@,
                v@.len() == len,
                a == v@.take(n as int),
                i <= n <= len,
                merge_seqs(a, b) == temp@ + a.skip(i as int),
            decreases n - i,
        {
            proof {
                assert(a.skip(i as int)[0] == a[i as int] && a[i as int] == v@[i as int]);
            }
            let x = v[i];
            temp.push(x);
            i = i + 1;
            proof {
                assert(seq![a[i - 1]] + a.skip(i as int) =~= a.skip(i - 1));
                assert(temp@ + a.skip(i as int) =~= merge_seqs(a, b));
            }
        }
    }
    if j < len {
        proof {
            assert(a.skip(i as int).len() == 0);
        }
        while j < len
            invariant
                v@ == old(v)@,
                v@.len() == len,
                b == v@.skip(n as int),
                n <= j <= len,
                merge_seqs(a, b) == temp@ + b.skip(j - n),
            decreases len - j,
        {
            proof {
                assert(b.skip(j - n)[0] == b[j - n] && b[j - n] == v@[j as int]);
            }
            let y = v[j];
            temp.push(y);
            j = j + 1;
            proof {
                assert(seq![b[j - n - 1]] + b.skip(j - n) =~= b.skip(j - n - 1));
                assert(temp@ + b.skip(j - n) =~= merge_seqs(a, b));
            }
        }
    }
    proof {
        assert(a.skip(n as int).len() == 0);
        assert(b.skip(len - n).len() == 0);
        assert(temp@ =~= merge_seqs(a, b));
    }
    let mut m: usize = 0;
    while m < len
        invariant
            v@.len() == len,
            temp@.len() == len,
            temp@ == merge_seqs(a, b),
            m <= len,
            forall|k: int| 0 <= k < m ==> v@[k] == temp@[k],
        decreases len - m,
    {
        let t = temp[m];
        v[m] = t;
        m = m + 1;
    }
    proof {
        assert(v@ =~= temp@);
    }
}

/// Merge sort: sorts each half recursively, then merges the two
/// sorted halves.
pub fn merge_sort<T: Ord + Copy>(v: &mut Vec<T>)
    requires
        lawful_ord::<T>(),
    ensures
        sorted(final(v)@),
        final(v)@.to_multiset() == old(v)@.to_multiset(),
        final(v)@.len() == old(v)@.len(),
    decreases old(v)@.len(),
{
    proof {
        lemma_lawful_ord::<T>();
    }
    let middle = v.len() / 2;
    if middle == 0 {
        return ;
    }
    let ghost whole = v@;
    let mut right = v.split_off(middle);
    merge_sort(v);
    merge_sort(&mut right);
    let ghost lft = v@;
    let ghost rgt = right@;
    v.append(&mut right);
    proof {
        vstd::seq_lib::lemma_multiset_commutative(lft, rgt);
        vstd::seq_lib::lemma_multiset_commutative(whole.subrange(0, middle as int), whole.subrange(middle as int, whole.len() as int));
        assert(whole.subrange(0, middle as int) + whole.subrange(middle as int, whole.len() as int)
            =~= whole);
        assert(v@.take(middle as int) =~= lft);
        assert(v@.skip(middle as int) =~= rgt);
    }
    merge(v, middle);
}

/// Two sequences that agree outside a region and hold the same
/// multiset overall hold the same multiset inside the region.
proof fn lemma_region_multiset<T>(s1: Seq<T>, s2: Seq<T>, lo: int, hi: int)
    requires
        s1.len() == s2.len(),
        0 <= lo <= hi <= s1.len(),
        forall|k: int| 0 <= k < lo ==> s1[k] == s2[k],
        forall|k: int| hi <= k < s1.len() ==> s1[k] == s2[k],
        s1.to_multiset() == s2.to_multiset(),
    ensures
        s1.subrange(lo, hi).to_multiset() == s2.subrange(lo, hi).to_multiset(),
{
    broadcast use vstd::multiset::group_multiset_axioms;

    let a1 = s1.take(lo);
    let b1 = s1.subrange(lo, hi);
    let c1 = s1.skip(hi);
    let a2 = s2.take(lo);
    let b2 = s2.subrange(lo, hi);
    let c2 = s2.skip(hi);
    assert(a1 =~= a2);
    assert(c1 =~= c2);
    assert(s1 =~= (a1 + b1) + c1);
    assert(s2 =~= (a2 + b2) + c2);
    vstd::seq_lib::lemma_multiset_commutative(a1 + b1, c1);
    vstd::seq_lib::lemma_multiset_commutative(a2 + b2, c2);
    vstd::seq_lib::lemma_multiset_commutative(a1, b1);
    vstd::seq_lib::lemma_multiset_commutative(a2, b2);
    assert forall|x: T| #[trigger] b1.to_multiset().count(x) == b2.to_multiset().count(x) by {
        assert(s1.to_multiset() == ((a1 + b1) + c1).to_multiset());
        assert(((a1 + b1) + c1).to_multiset() == (a1 + b1).to_multiset().add(c1.to_multiset()));
        assert((a1 + b1).to_multiset() == a1.to_multiset().add(b1.to_multiset()));
        assert(s1.to_multiset().count(x) == a1.to_multiset().count(x) + b1.to_multiset().count(x)
            + c1.to_multiset().count(x));
        assert(s2.to_multiset() == ((a2 + b2) + c2).to_multiset());
        assert(((a2 + b2) + c2).to_multiset() == (a2 + b2).to_multiset().add(c2.to_multiset()));
        assert((a2 + b2).to_multiset() == a2.to_multiset().add(b2.to_multiset()));
        assert(s2.to_multiset().count(x) == a2.to_multiset().count(x) + b2.to_multiset().count(x)
            + c2.to_multiset().count(x));
    }
    assert(b1.to_multiset() =~= b2.to_multiset());
}

/// Partitions `v[lo..hi]` around the pivot read from position
/// `hi - 1`: everything smaller than the pivot moves before it,
/// everything else after it; returns the pivot's final position.
fn partition_range<T: Ord + Copy>(v: &mut Vec<T>, lo: usize, hi: usize) -> (i: usize)
    requires
        lawful_ord::<T>(),
        lo < hi <= old(v)@.len(),
    ensures
        final(v)@.len() == old(v)@.len(),
        lo <= i < hi,
        forall|k: int| 0 <= k < lo ==> final(v)@[k] == old(v)@[k],
        forall|k: int| hi <= k < old(v)@.len() ==> final(v)@[k] == old(v)@[k],
        final(v)@.to_multiset() == old(v)@.to_multiset(),
        final(v)@[i as int] == old(v)@[hi - 1],
        forall|k: int| lo <= k < i ==> !le(old(v)@[hi - 1], final(v)@[k]),
        forall|k: int| i < k < hi ==> le(old(v)@[hi - 1], final(v)@[k]),
{
    proof {
        lemma_lawful_ord::<T>();
    }
    let n = v.len();
    let pivot = v[hi - 1];
    let mut i: usize = lo;
    let mut j: usize = lo;
    while j < hi - 1
        invariant
            lawful_ord::<T>(),
            v@.len() == n,
            lo <= i <= j <= hi - 1,
            hi <= n,
            pivot == old(v)@[hi - 1],
            v@[hi - 1] == pivot,
            forall|k: int| 0 <= k < lo ==> v@[k] == old(v)@[k],
            forall|k: int| hi <= k < n ==> v@[k] == old(v)@[k],
            v@.to_multiset() == old(v)@.to_multiset(),
            forall|k: int| lo <= k < i ==> !le(pivot, v@[k]),
            forall|k: int| i <= k < j ==> le(pivot, v@[k]),
        decreases hi - 1 - j,
    {
        proof {
            lemma_lawful_ord::<T>();
        }
        let a = v[j];
        if a.lt(&pivot) {
            let ghost s = v@;
            let b = v[i];
            v[j] = b;
            v[i] = a;
            proof {
                assert(v@ =~= s.update(j as int, s[i as int]).update(i as int, s[j as int]));
                lemma_swap_multiset(s, j as int, i as int);
            }
            i = i + 1;
        }
        j = j + 1;
    }
    let ghost s = v@;
    let w = v[i];
    v[hi - 1] = w;
    v[i] = pivot;
    proof {
        assert(v@ =~= s.update(hi - 1, s[i as int]).update(i as int, s[hi - 1]));
        lemma_swap_multiset(s, hi - 1, i as int);
    }
    i
}

/// Sorts the region `v[lo..hi]`, leaving everything outside it
/// untouched.
fn quick_range<T: Ord + Copy>(v: &mut Vec<T>, lo: usize, hi: usize)
    requires
        lawful_ord::<T>(),
        lo <= hi <= old(v)@.len(),
    ensures
        final(v)@.len() == old(v)@.len(),
        forall|k: int| 0 <= k < lo ==> final(v)@[k] == old(v)@[k],
        forall|k: int| hi <= k < old(v)@.len() ==> final(v)@[k] == old(v)@[k],
        final(v)@.to_multiset() == old(v)@.to_multiset(),
        sorted(final(v)@.subrange(lo as int, hi as int)),
    decreases hi - lo,
{
    proof {
        lemma_lawful_ord::<T>();
    }
    if hi - lo <= 1 {
        return ;
    }
    let p = partition_range(v, lo, hi);
    let ghost pv = v@[p as int];
    let ghost s1 = v@;
    quick_range(v, lo, p);
    let ghost s2 = v@;
    quick_range(v, p + 1, hi);
    let ghost s3 = v@;
    proof {
        broadcast use vstd::seq_lib::group_to_multiset_ensures;

        lemma_lawful_ord::<T>();
        lemma_region_multiset(s2, s1, lo as int, p as int);
        lemma_region_multiset(s3, s2, p + 1, hi as int);
        assert(s3[p as int] == pv);
        assert(s3.subrange(lo as int, p as int) =~= s2.subrange(lo as int, p as int));
        assert(s3.subrange(p + 1, hi as int).to_multiset() == s2.subrange(
            p + 1,
            hi as int,
        ).to_multiset());
        assert(s2.subrange(p + 1, hi as int) =~= s1.subrange(p + 1, hi as int));
        assert forall|k: int| lo <= k < p implies !le(pv, s3[k]) by {
            let b3 = s3.subrange(lo as int, p as int);
            let b1 = s1.subrange(lo as int, p as int);
            assert(b3[k - lo] == s3[k]);
            assert(b3.contains(s3[k]));
            assert(b3.to_multiset().count(s3[k]) > 0);
            assert(b1.to_multiset().count(s3[k]) > 0);
            assert(b1.contains(s3[k]));
            let m = choose|m: int| 0 <= m < b1.len() && b1[m] == s3[k];
            assert(s1[lo + m] == s3[k]);
        }
        assert forall|k: int| p < k < hi implies le(pv, s3[k]) by {
            let c3 = s3.subrange(p + 1, hi as int);
            let c1 = s1.subrange(p + 1, hi as int);
            assert(c3[k - p - 1] == s3[k]);
            assert(c3.contains(s3[k]));
            assert(c3.to_multiset().count(s3[k]) > 0);
            assert(c1.to_multiset().count(s3[k]) > 0);
            assert(c1.contains(s3[k]));
            let m = choose|m: int| 0 <= m < c1.len() && c1[m] == s3[k];
            assert(s1[p + 1 + m] == s3[k]);
        }
        assert forall|a: int, b: int| lo <= a <= b < hi implies le(s3[a], s3[b]) by {
            let left = s3.subrange(lo as int, p as int);
            let right = s3.subrange(p + 1, hi as int);
            if b < p {
                assert(sorted(s2.subrange(lo as int, p as int)));
                assert(le(left[a - lo], left[b - lo]));
            } else if a < p && b == p {
                assert(!le(pv, s3[a]));
            } else if a < p && b > p {
                assert(!le(pv, s3[a]));
                assert(le(pv, s3[b]));
            } else if a == p && b == p {
                assert(le(pv, pv));
            } else if a == p && b > p {
                assert(le(pv, s3[b]));
            } else {
                assert(le(right[a - p - 1], right[b - p - 1]));
            }
        }
        assert forall|a: int, b: int|
            0 <= a <= b < hi - lo implies #[trigger] le(
            s3.subrange(lo as int, hi as int)[a],
            s3.subrange(lo as int, hi as int)[b],
        ) by {
            assert(s3.subrange(lo as int, hi as int)[a] == s3[lo + a]);
            assert(s3.subrange(lo as int, hi as int)[b] == s3[lo + b]);
        }
    }
}

/// Quick sort: partitions around a pivot and sorts the two sides
/// recursively.
pub fn quick_sort<T: Ord + Copy>(v: &mut Vec<T>)
    requires
        lawful_ord::<T>(),
    ensures
        sorted(final(v)@),
        final(v)@.to_multiset() == old(v)@.to_multiset(),
        final(v)@.len() == old(v)@.len(),
{
    let n = v.len();
    if n == 0 {
        return ;
    }
    quick_range(v, 0, n);
    proof {
        assert(v@.subrange(0, n as int) =~= v@);
    }
}

/// Partitions the prefix `v[..=*p]` around the pivot read from
/// position `*p`: smaller elements end up before the pivot's final
/// position (written back to `*p`), everything else after it up to the
/// old pivot position.
pub fn partition<T: Ord + Copy>(v: &mut Vec<T>, p: &mut usize)
    requires
        lawful_ord::<T>(),
        *old(p) < old(v)@.len(),
    ensures
        final(v)@.len() == old(v)@.len(),
        *final(p) <= *old(p),
        forall|k: int| *old(p) < k < old(v)@.len() ==> final(v)@[k] == old(v)@[k],
        final(v)@.to_multiset() == old(v)@.to_multiset(),
        final(v)@[*final(p) as int] == old(v)@[*old(p) as int],
        forall|k: int| 0 <= k < *final(p) ==> !le(old(v)@[*old(p) as int], final(v)@[k]),
        forall|k: int|
            *final(p) < k <= *old(p) ==> le(old(v)@[*old(p) as int], final(v)@[k]),
{
    let n = v.len();
    proof {
        assert(*p < n);
    }
    let i = partition_range(v, 0, *p + 1);
    *p = i;
}

/// Selection sort: repeatedly selects the smallest remaining element
/// and swaps it to the end of the sorted prefix.
pub fn selection<T: Ord + Copy>(v: &mut Vec<T>)
    requires
        lawful_ord::<T>(),
    ensures
        sorted(final(v)@),
        final(v)@.to_multiset() == old(v)@.to_multiset(),
{
    proof {
        lemma_lawful_ord::<T>();
    }
    let n = v.len();
    let mut i: usize = 0;
    while i < n
        invariant
            lawful_ord::<T>(),
            n == v@.len(),
            i <= n,
            v@.to_multiset() == old(v)@.to_multiset(),
            front_sorted(v@, i as int),
        decreases n - i,
    {
        proof {
            lemma_lawful_ord::<T>();
        }
        let mut min: usize = i;
        let mut j: usize = i;
        while j < n
            invariant
                lawful_ord::<T>(),
                n == v@.len(),
                i <= min < n,
                i <= j <= n,
                i < n,
                forall|q: int| i <= q < j ==> le(v@[min as int], v@[q]),
            decreases n - j,
        {
            proof {
                lemma_lawful_ord::<T>();
            }
            let a = v[j];
            let b = v[min];
            if a.lt(&b) {
                min = j;
            }
            j = j + 1;
        }
        let ghost s = v@;
        let a = v[i];
        let b = v[min];
        v[i] = b;
        v[min] = a;
        proof {
            assert(v@ =~= s.update(i as int, s[min as int]).update(min as int, s[i as int]));
            lemma_swap_multiset(s, i as int, min as int);
            assert(front_sorted(v@, i + 1));
        }
        i = i + 1;
    }
    proof {
        assert(front_sorted(v@, n as int));
    }
}

/// Concatenating two sorted sequences whose elements are separated by
/// a bound yields a sorted sequence.
proof fn lemma_concat_sorted(a: Seq<i32>, b: Seq<i32>, bound: i32)
    requires
        sorted(a),
        sorted(b),
        forall|p: int| 0 <= p < a.len() ==> #[trigger] a[p] <= bound,
        forall|q: int| 0 <= q < b.len() ==> bound < #[trigger] b[q],
    ensures
        sorted(a + b),
{
    lemma_i32_order();
    assert forall|p: int, q: int| 0 <= p <= q < (a + b).len() implies le((a + b)[p], (a + b)[q]) by {
        if q < a.len() {
            assert(le(a[p], a[q]));
        } else if p >= a.len() {
            assert(le(b[p - a.len()], b[q - a.len()]));
        } else {
            assert(a[p] <= bound && bound < b[q - a.len()]);
        }
    }
}

/// The `i32` comparisons form a lawful total order and `le` is plain
/// `<=`.
proof fn lemma_i32_order()
    ensures
        lawful_ord::<i32>(),
        forall|x: i32, y: i32| #[trigger] le(x, y) <==> x <= y,
{
    broadcast use vstd::laws_cmp::group_laws_cmp;
    broadcast use vstd::laws_eq::group_laws_eq;

    lemma_lawful_ord::<i32>();
    assert forall|x: i32, y: i32| #[trigger] le(x, y) <==> x <= y by {
        assert(x.partial_cmp_spec(&y) == Some(x.cmp_spec(&y)));
    }
}

/// Collects the elements of `v` that lie between `lo` and `hi`
/// (inclusive), in order.
fn collect_range(v: &Vec<i32>, lo: i32, hi: i32) -> (r: Vec<i32>)
    ensures
        forall|x: i32|
            #[trigger] r@.to_multiset().count(x) == (if lo <= x <= hi {
                v@.to_multiset().count(x)
            } else {
                0
            }),
{
    broadcast use vstd::seq_lib::group_to_multiset_ensures;
    broadcast use vstd::multiset::group_multiset_axioms;

    let n = v.len();
    let mut r: Vec<i32> = Vec::new();
    let mut i: usize = 0;
    proof {
        assert(v@.take(0) =~= Seq::<i32>::empty());
    }
    while i < n
        invariant
            n == v@.len(),
            i <= n,
            forall|x: i32|
                #[trigger] r@.to_multiset().count(x) == (if lo <= x <= hi {
                    v@.take(i as int).to_multiset().count(x)
                } else {
                    0
                }),
        decreases n - i,
    {
        broadcast use vstd::seq_lib::group_to_multiset_ensures;
        broadcast use vstd::multiset::group_multiset_axioms;

        let x = v[i];
        if lo <= x && x <= hi {
            r.push(x);
        }
        proof {
            assert(v@.take(i + 1) =~= v@.take(i as int).push(x));
        }
        i = i + 1;
    }
    proof {
        assert(v@.take(n as int) =~= v@);
    }
    r
}

/// Bucket sort for values `0` to `100`: the values are split into ten
/// ranges of ten, each range is sorted on its own, and the sorted
/// ranges are laid end to end. Values outside `0..=100` are dropped.
pub fn bucket(v: Vec<i32>) -> (r: Vec<i32>)
    ensures
        sorted(r@),
        forall|x: i32|
            #[trigger] r@.to_multiset().count(x) == (if 0 <= x <= 100 {
                v@.to_multiset().count(x)
            } else {
                0
            }),
{
    broadcast use vstd::seq_lib::group_to_multiset_ensures;
    broadcast use vstd::multiset::group_multiset_axioms;

    proof {
        lemma_i32_order();
    }
    let mut r: Vec<i32> = Vec::new();
    let mut k: usize = 0;
    while k < 10
        invariant
            k <= 10,
            sorted(r@),
            forall|x: i32|
                #[trigger] r@.to_multiset().count(x) == (if k > 0 && 0 <= x <= 10 * k {
                    v@.to_multiset().count(x)
                } else {
                    0
                }),
            forall|p: int| 0 <= p < r@.len() ==> #[trigger] r@[p] <= 10 * k,
        decreases 10 - k,
    {
        broadcast use vstd::seq_lib::group_to_multiset_ensures;
        broadcast use vstd::multiset::group_multiset_axioms;

        proof {
            lemma_i32_order();
        }
        let lo: i32 = if k == 0 {
            0
        } else {
            10 * (k as i32) + 1
        };
        let hi: i32 = 10 * (k as i32) + 10;
        let mut bk = collect_range(&v, lo, hi);
        quick_sort(&mut bk);
        let ghost rb = r@;
        let ghost bs = bk@;
        proof {
            assert forall|p: int| 0 <= p < bs.len() implies lo <= #[trigger] bs[p] <= hi by {
                assert(bs.contains(bs[p]));
                assert(bs.to_multiset().count(bs[p]) > 0);
            }
        }
        r.append(&mut bk);
        proof {
            vstd::seq_lib::lemma_multiset_commutative(rb, bs);
            if k == 0 {
                assert forall|x: i32|
                    #[trigger] rb.to_multiset().count(x) == vstd::multiset::Multiset::<
                        i32,
                    >::empty().count(x) by {
                    assert(rb.to_multiset().count(x) == 0);
                }
                assert(rb.to_multiset() =~= vstd::multiset::Multiset::<i32>::empty());
                assert(rb.len() == rb.to_multiset().len());
                assert(rb.len() == 0);
            }
            lemma_concat_sorted(rb, bs, ((lo as int) - 1) as i32);
            assert(sorted(r@));
            assert forall|x: i32|
                #[trigger] r@.to_multiset().count(x) == (if k + 1 > 0 && 0 <= x <= 10 * (k + 1) {
                    v@.to_multiset().count(x)
                } else {
                    0
                }) by {
                assert(r@.to_multiset().count(x) == rb.to_multiset().count(x)
                    + bs.to_multiset().count(x));
            }
            assert forall|p: int| 0 <= p < r@.len() implies #[trigger] r@[p] <= 10 * (k + 1) by {
                if p < rb.len() {
                    assert(r@[p] == rb[p]);
                } else {
                    assert(r@[p] == bs[p - rb.len()]);
                }
            }
        }
        k = k + 1;
    }
    r
}

/// Counting sort for scores `0` to `5`: tallies how often each value
/// occurs, then writes the values back out in order.
pub fn count(v: Vec<i32>) -> (r: Vec<i32>)
    requires
        forall|k: int| 0 <= k < v@.len() ==> 0 <= #[trigger] v@[k] < 6,
    ensures
        sorted(r@),
        r@.to_multiset() == v@.to_multiset(),
{
    broadcast use vstd::seq_lib::group_to_multiset_ensures;
    broadcast use vstd::multiset::group_multiset_axioms;

    let n = v.len();
    let mut c: Vec<usize> = Vec::new();
    let mut w: usize = 0;
    while w < 6
        invariant
            c@.len() == w,
            w <= 6,
            forall|k: int| 0 <= k < w ==> c@[k] == 0,
        decreases 6 - w,
    {
        c.push(0);
        w = w + 1;
    }
    let mut i: usize = 0;
    proof {
        assert(v@.take(0) =~= Seq::<i32>::empty());
        assert(forall|x: i32| v@.take(0).to_multiset().count(x) == 0);
    }
    while i < n
        invariant
            n == v@.len(),
            i <= n,
            c@.len() == 6,
            forall|k: int| 0 <= k < n ==> 0 <= #[trigger] v@[k] < 6,
            forall|w2: int|
                0 <= w2 < 6 ==> #[trigger] c@[w2] == v@.take(i as int).to_multiset().count(
                    w2 as i32,
                ),
        decreases n - i,
    {
        broadcast use vstd::seq_lib::group_to_multiset_ensures;

        let x = v[i];
        let xi = x as usize;
        proof {
            assert(v@.take(i as int).to_multiset().count(x) <= v@.take(i as int).to_multiset().len());
        }
        let cur = c[xi];
        c[xi] = cur + 1;
        proof {
            assert(v@.take(i + 1) =~= v@.take(i as int).push(x));
        }
        i = i + 1;
    }
    proof {
        assert(v@.take(n as int) =~= v@);
    }
    let mut r: Vec<i32> = Vec::new();
    let mut val: usize = 0;
    while val < 6
        invariant
            c@.len() == 6,
            val <= 6,
            forall|w2: int| 0 <= w2 < 6 ==> #[trigger] c@[w2] == v@.to_multiset().count(w2 as i32),
            forall|k: int| 0 <= k < r@.len() ==> 0 <= #[trigger] r@[k] < val,
            sorted(r@),
            forall|w2: int|
                0 <= w2 < val ==> #[trigger] r@.to_multiset().count(w2 as i32)
                    == v@.to_multiset().count(w2 as i32),
            forall|x: i32| !(0 <= x < val) ==> #[trigger] r@.to_multiset().count(x) == 0,
        decreases 6 - val,
    {
        broadcast use vstd::seq_lib::group_to_multiset_ensures;
        broadcast use vstd::multiset::group_multiset_axioms;

        let goal = c[val];
        let mut t: usize = 0;
        while t < goal
            invariant
                t <= goal,
                val < 6,
                c@.len() == 6,
                goal == c@[val as int],
                forall|w2: int| 0 <= w2 < 6 ==> #[trigger] c@[w2] == v@.to_multiset().count(
                    w2 as i32,
                ),
                forall|k: int| 0 <= k < r@.len() ==> 0 <= #[trigger] r@[k] <= val,
                sorted(r@),
                r@.to_multiset().count(val as i32) == t,
                forall|w2: int|
                    0 <= w2 < val ==> #[trigger] r@.to_multiset().count(w2 as i32)
                        == v@.to_multiset().count(w2 as i32),
                forall|x: i32| !(0 <= x <= val) ==> #[trigger] r@.to_multiset().count(x) == 0,
            decreases goal - t,
        {
            broadcast use vstd::seq_lib::group_to_multiset_ensures;
            broadcast use vstd::multiset::group_multiset_axioms;

            let ghost rb = r@;
            r.push(val as i32);
            proof {
                assert(forall|k: int| 0 <= k < rb.len() ==> r@[k] == rb[k]);
                assert(r@[rb.len() as int] == val as i32);
            }
            t = t + 1;
        }
        val = val + 1;
    }
    proof {
        assert forall|x: i32| #[trigger] r@.to_multiset().count(x) == v@.to_multiset().count(
            x,
        ) by {
            if 0 <= x < 6 {
                let w2 = x as int;
                assert(r@.to_multiset().count(w2 as i32) == v@.to_multiset().count(w2 as i32));
                assert(w2 as i32 == x);
            } else {
                if v@.to_multiset().count(x) > 0 {
                    assert(v@.contains(x));
                    let k = choose|k: int| 0 <= k < v@.len() && v@[k] == x;
                    assert(false);
                }
            }
        }
        assert(r@.to_multiset() =~= v@.to_multiset());
    }
    r
}

} // verus!
