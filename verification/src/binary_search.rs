//! Binary search over a sorted slice, with the classic variants: any
//! match, first match, last match, first element at least the target,
//! last element at most the target.

use vstd::prelude::*;

verus! {

use crate::order::lawful_ord;
use crate::order::le;
use crate::order::lemma_lawful_ord;
use crate::order::sorted;

/// Halves the search range around its middle element until the target
/// is found: returns the target when some element equals it, nothing
/// otherwise.
pub fn binary_search<T: Ord + Copy>(v: &[T], n: T) -> (r: Option<T>)
    requires
        lawful_ord::<T>(),
        sorted(v@),
    ensures
        r == (if v@.contains(n) {
            Some(n)
        } else {
            None::<T>
        }),
{
    proof {
        lemma_lawful_ord::<T>();
    }
    let len = v.len();
    let mut lo: usize = 0;
    let mut hi: usize = len;
    while lo < hi
        invariant
            lawful_ord::<T>(),
            sorted(v@),
            lo <= hi <= len,
            len == v@.len(),
            forall|k: int| 0 <= k < len && !(lo <= k < hi) ==> v@[k] != n,
        decreases hi - lo,
    {
        proof {
            lemma_lawful_ord::<T>();
        }
        let mid = lo + (hi - lo) / 2;
        let c = v[mid];
        if c.gt(&n) {
            proof {
                assert(forall|k: int|
                    mid <= k < len ==> le(v@[mid as int], #[trigger] v@[k]) && v@[k] != n);
            }
            hi = mid;
        } else if c.lt(&n) {
            proof {
                assert(forall|k: int|
                    0 <= k <= mid ==> le(#[trigger] v@[k], v@[mid as int]) && v@[k] != n);
            }
            lo = mid + 1;
        } else {
            proof {
                assert(v@[mid as int] == n);
                assert(v@.contains(n));
            }
            return Some(c);
        }
    }
    proof {
        if v@.contains(n) {
            let k = choose|k: int| 0 <= k < v@.len() && v@[k] == n;
            assert(false);
        }
    }
    None
}

/// Like `binary_search`, but converges on the first matching element:
/// it narrows to the leftmost position whose element is at least the
/// target and checks it.
pub fn binary_search_v1<T: Ord + Copy>(v: &[T], n: T) -> (r: Option<T>)
    requires
        lawful_ord::<T>(),
        sorted(v@),
    ensures
        r == (if v@.contains(n) {
            Some(n)
        } else {
            None::<T>
        }),
{
    proof {
        lemma_lawful_ord::<T>();
    }
    let len = v.len();
    let mut lo: usize = 0;
    let mut hi: usize = len;
    while lo < hi
        invariant
            lawful_ord::<T>(),
            sorted(v@),
            lo <= hi <= len,
            len == v@.len(),
            forall|k: int| 0 <= k < lo ==> !le(n, #[trigger] v@[k]),
            forall|k: int| hi <= k < len ==> le(n, #[trigger] v@[k]),
        decreases hi - lo,
    {
        proof {
            lemma_lawful_ord::<T>();
        }
        let mid = lo + (hi - lo) / 2;
        let c = v[mid];
        if c.lt(&n) {
            proof {
                assert(forall|k: int|
                    0 <= k <= mid ==> le(#[trigger] v@[k], v@[mid as int]) && !le(n, v@[k]));
            }
            lo = mid + 1;
        } else {
            proof {
                assert(forall|k: int|
                    mid <= k < len ==> le(v@[mid as int], #[trigger] v@[k]) && le(n, v@[k]));
            }
            hi = mid;
        }
    }
    if lo < len {
        let c = v[lo];
        if c.eq(&n) {
            proof {
                assert(v@[lo as int] == n);
                assert(v@.contains(n));
            }
            return Some(c);
        }
    }
    proof {
        if v@.contains(n) {
            let k = choose|k: int| 0 <= k < v@.len() && v@[k] == n;
            assert(le(n, v@[k]));
        }
    }
    None
}

/// Like `binary_search`, but converges on the last matching element:
/// it narrows to the rightmost position whose element is at most the
/// target and checks it.
pub fn binary_search_v2<T: Ord + Copy>(v: &[T], n: T) -> (r: Option<T>)
    requires
        lawful_ord::<T>(),
        sorted(v@),
    ensures
        r == (if v@.contains(n) {
            Some(n)
        } else {
            None::<T>
        }),
{
    proof {
        lemma_lawful_ord::<T>();
    }
    let len = v.len();
    let mut lo: usize = 0;
    let mut hi: usize = len;
    while lo < hi
        invariant
            lawful_ord::<T>(),
            sorted(v@),
            lo <= hi <= len,
            len == v@.len(),
            forall|k: int| 0 <= k < lo ==> le(#[trigger] v@[k], n),
            forall|k: int| hi <= k < len ==> !le(#[trigger] v@[k], n),
        decreases hi - lo,
    {
        proof {
            lemma_lawful_ord::<T>();
        }
        let mid = lo + (hi - lo) / 2;
        let c = v[mid];
        if n.lt(&c) {
            proof {
                assert(forall|k: int|
                    mid <= k < len ==> le(v@[mid as int], #[trigger] v@[k]) && !le(v@[k], n));
            }
            hi = mid;
        } else {
            proof {
                assert(forall|k: int|
                    0 <= k <= mid ==> le(#[trigger] v@[k], v@[mid as int]) && le(v@[k], n));
            }
            lo = mid + 1;
        }
    }
    if lo > 0 {
        let c = v[lo - 1];
        if c.eq(&n) {
            proof {
                assert(v@[lo - 1] == n);
                assert(v@.contains(n));
            }
            return Some(c);
        }
    }
    proof {
        if v@.contains(n) {
            let k = choose|k: int| 0 <= k < v@.len() && v@[k] == n;
            assert(le(v@[k], n));
            assert(le(n, v@[k]));
        }
    }
    None
}

/// The first element at least the target: returns the element at the
/// leftmost position whose element is at least `n`, or nothing when
/// every element is smaller.
pub fn binary_search_v3<T: Ord + Copy>(v: &[T], n: T) -> (r: Option<T>)
    requires
        lawful_ord::<T>(),
        sorted(v@),
    ensures
        match r {
            Some(x) => exists|i: int|
                {
                    &&& 0 <= i < v@.len()
                    &&& v@[i] == x
                    &&& le(n, x)
                    &&& forall|j: int| 0 <= j < i ==> !le(n, v@[j])
                },
            None => forall|i: int| 0 <= i < v@.len() ==> !le(n, #[trigger] v@[i]),
        },
{
    proof {
        lemma_lawful_ord::<T>();
    }
    let len = v.len();
    let mut lo: usize = 0;
    let mut hi: usize = len;
    while lo < hi
        invariant
            lawful_ord::<T>(),
            sorted(v@),
            lo <= hi <= len,
            len == v@.len(),
            forall|k: int| 0 <= k < lo ==> !le(n, #[trigger] v@[k]),
            forall|k: int| hi <= k < len ==> le(n, #[trigger] v@[k]),
        decreases hi - lo,
    {
        proof {
            lemma_lawful_ord::<T>();
        }
        let mid = lo + (hi - lo) / 2;
        let c = v[mid];
        if c.lt(&n) {
            proof {
                assert(forall|k: int|
                    0 <= k <= mid ==> le(#[trigger] v@[k], v@[mid as int]) && !le(n, v@[k]));
            }
            lo = mid + 1;
        } else {
            proof {
                assert(forall|k: int|
                    mid <= k < len ==> le(v@[mid as int], #[trigger] v@[k]) && le(n, v@[k]));
            }
            hi = mid;
        }
    }
    if lo < len {
        let c = v[lo];
        proof {
            let wi = lo as int;
            assert(0 <= wi < v@.len() && v@[wi] == c && le(n, c) && forall|j: int|
                0 <= j < wi ==> !le(n, v@[j]));
        }
        Some(c)
    } else {
        None
    }
}

/// The last element at most the target: returns the element at the
/// rightmost position whose element is at most `n`, or nothing when
/// every element is larger.
pub fn binary_search_v4<T: Ord + Copy>(v: &[T], n: T) -> (r: Option<T>)
    requires
        lawful_ord::<T>(),
        sorted(v@),
    ensures
        match r {
            Some(x) => exists|i: int|
                {
                    &&& 0 <= i < v@.len()
                    &&& v@[i] == x
                    &&& le(x, n)
                    &&& forall|j: int| i < j < v@.len() ==> !le(v@[j], n)
                },
            None => forall|i: int| 0 <= i < v@.len() ==> !le(#[trigger] v@[i], n),
        },
{
    proof {
        lemma_lawful_ord::<T>();
    }
    let len = v.len();
    let mut lo: usize = 0;
    let mut hi: usize = len;
    while lo < hi
        invariant
            lawful_ord::<T>(),
            sorted(v@),
            lo <= hi <= len,
            len == v@.len(),
            forall|k: int| 0 <= k < lo ==> le(#[trigger] v@[k], n),
            forall|k: int| hi <= k < len ==> !le(#[trigger] v@[k], n),
        decreases hi - lo,
    {
        proof {
            lemma_lawful_ord::<T>();
        }
        let mid = lo + (hi - lo) / 2;
        let c = v[mid];
        if n.lt(&c) {
            proof {
                assert(forall|k: int|
                    mid <= k < len ==> le(v@[mid as int], #[trigger] v@[k]) && !le(v@[k], n));
            }
            hi = mid;
        } else {
            proof {
                assert(forall|k: int|
                    0 <= k <= mid ==> le(#[trigger] v@[k], v@[mid as int]) && le(v@[k], n));
            }
            lo = mid + 1;
        }
    }
    if lo > 0 {
        let c = v[lo - 1];
        proof {
            let wi = lo - 1;
            assert(0 <= wi < v@.len() && v@[wi] == c && le(c, n) && forall|j: int|
                wi < j < v@.len() ==> !le(v@[j], n));
        }
        Some(c)
    } else {
        None
    }
}

} // verus!
