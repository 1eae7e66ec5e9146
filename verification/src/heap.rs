//! A bounded max-heap over an array: a complete binary tree stored in
//! a vector, every node at least as large as its children, so the
//! largest element always sits at the root.

use vstd::prelude::*;

verus! {

use crate::order::lawful_ord;
use crate::order::le;
use crate::order::lemma_lawful_ord;

/// The max-heap shape: every element is at most its parent.
pub open spec fn is_heap<T: Ord>(s: Seq<T>) -> bool {
    forall|i: int| 1 <= i < s.len() ==> le(#[trigger] s[i], s[(i - 1) / 2])
}

/// In a max-heap the root bounds every element.
pub proof fn lemma_heap_root<T: Ord>(s: Seq<T>, i: int)
    requires
        lawful_ord::<T>(),
        is_heap(s),
        0 <= i < s.len(),
    ensures
        le(s[i], s[0]),
    decreases i,
{
    lemma_lawful_ord::<T>();
    if i > 0 {
        lemma_heap_root(s, (i - 1) / 2);
    }
}

/// A max-heap with a fixed capacity.
pub struct Heap<T> {
    inner: Vec<T>,
    max: usize,
    count: usize,
}

impl<T: Ord + Copy> Heap<T> {
    /// The stored elements in array order (a valid heap shape).
    pub closed spec fn contents(&self) -> Seq<T> {
        self.inner@
    }

    /// The capacity fixed at construction.
    pub closed spec fn capacity(&self) -> usize {
        self.max
    }

    /// The number of stored elements (the `count` field).
    pub closed spec fn size(&self) -> usize {
        self.count
    }

    /// The count tracks the store, stays under the capacity, and the
    /// store keeps the heap shape.
    pub open spec fn wf(&self) -> bool {
        &&& self.contents().len() == self.size()
        &&& self.size() <= self.capacity()
        &&& is_heap(self.contents())
    }

    /// An empty heap with capacity `size`.
    pub fn new(size: usize) -> (r: Self)
        ensures
            r.wf(),
            r.capacity() == size,
            r.contents() == Seq::<T>::empty(),
    {
        Heap { inner: Vec::new(), max: size, count: 0 }
    }

    /// Inserts `n` and floats it up to its place; fails (and changes
    /// nothing) when the heap is full.
    pub fn insert(&mut self, n: T) -> (r: Option<()>)
        requires
            lawful_ord::<T>(),
            old(self).wf(),
        ensures
            final(self).wf(),
            final(self).capacity() == old(self).capacity(),
            old(self).size() < old(self).capacity() ==> {
                &&& r == Some(())
                &&& final(self).contents().to_multiset() == old(
                    self,
                ).contents().to_multiset().insert(n)
                &&& final(self).size() == old(self).size() + 1
            },
            old(self).size() >= old(self).capacity() ==> r == None::<()> && *final(self) == *old(
                self,
            ),
    {
        broadcast use vstd::seq_lib::group_to_multiset_ensures;

        if self.count < self.max {
            self.inner.push(n);
            self.count = self.count + 1;
            Self::sift_up(&mut self.inner, self.count - 1);
            Some(())
        } else {
            None
        }
    }

    /// Removes the root — a largest element — moving the last element
    /// to the top and sinking it to its place; fails on an empty heap.
    pub fn remove(&mut self) -> (r: Option<()>)
        requires
            lawful_ord::<T>(),
            old(self).wf(),
        ensures
            final(self).wf(),
            final(self).capacity() == old(self).capacity(),
            old(self).size() == 0 ==> r == None::<()> && *final(self) == *old(self),
            old(self).size() > 0 ==> {
                &&& r == Some(())
                &&& final(self).contents().to_multiset() == old(
                    self,
                ).contents().to_multiset().remove(old(self).contents()[0])
                &&& final(self).size() == old(self).size() - 1
                &&& forall|x: T|
                    #[trigger] old(self).contents().to_multiset().contains(x) ==> le(
                        x,
                        old(self).contents()[0],
                    )
            },
    {
        broadcast use vstd::seq_lib::group_to_multiset_ensures;
        broadcast use vstd::multiset::group_multiset_axioms;

        proof {
            lemma_lawful_ord::<T>();
        }
        if self.count == 0 {
            return None;
        }
        let ghost s = self.inner@;
        proof {
            assert forall|x: T| s.to_multiset().contains(x) implies le(x, s[0]) by {
                let i = choose|i: int| 0 <= i < s.len() && s[i] == x;
                lemma_heap_root(s, i);
            }
        }
        let last = self.inner.pop().unwrap();
        self.count = self.count - 1;
        if self.count == 0 {
            proof {
                assert(s =~= seq![s[0]]);
                assert(self.inner@.to_multiset() =~= s.to_multiset().remove(s[0]));
            }
            return Some(());
        }
        let ghost s1 = self.inner@;
        self.inner[0] = last;
        proof {
            assert(s =~= s1.push(last));
            assert(s1.contains(s1[0]));
            vstd::seq_lib::to_multiset_update(s1, 0, last);
            assert(self.inner@.to_multiset() =~= s.to_multiset().remove(s[0]));
            assert(forall|i: int|
                1 <= i < self.inner@.len() && (i - 1) / 2 != 0 ==> le(
                    #[trigger] self.inner@[i],
                    self.inner@[(i - 1) / 2],
                ));
        }
        Self::sift_down(&mut self.inner);
        Some(())
    }

    /// Floats the element at `j0` up until its parent is at least as
    /// large, restoring the heap shape broken only at `j0`.
    fn sift_up(v: &mut Vec<T>, j0: usize)
        requires
            lawful_ord::<T>(),
            j0 < old(v)@.len(),
            forall|i: int|
                1 <= i < old(v)@.len() && i != j0 ==> le(#[trigger] old(v)@[i], old(v)@[(i - 1)
                    / 2]),
            j0 > 0 ==> forall|c: int|
                1 <= c < old(v)@.len() && (c - 1) / 2 == j0 ==> le(
                    #[trigger] old(v)@[c],
                    old(v)@[(j0 - 1) / 2],
                ),
        ensures
            final(v)@.len() == old(v)@.len(),
            final(v)@.to_multiset() == old(v)@.to_multiset(),
            is_heap(final(v)@),
    {
        proof {
            lemma_lawful_ord::<T>();
        }
        let len = v.len();
        let mut j = j0;
        while j > 0
            invariant
                lawful_ord::<T>(),
                v@.len() == len,
                j < len,
                v@.to_multiset() == old(v)@.to_multiset(),
                forall|i: int|
                    1 <= i < len && i != j ==> le(#[trigger] v@[i], v@[(i - 1) / 2]),
                j > 0 ==> forall|c: int|
                    1 <= c < len && (c - 1) / 2 == j ==> le(#[trigger] v@[c], v@[(j - 1) / 2]),
            ensures
                j == 0 || le(v@[j as int], v@[(j - 1) / 2]),
            decreases j,
        {
            proof {
                lemma_lawful_ord::<T>();
            }
            let p = (j - 1) / 2;
            let a = v[j];
            let b = v[p];
            if a.gt(&b) {
                let ghost sb = v@;
                v[j] = b;
                v[p] = a;
                proof {
                    assert(v@ =~= sb.update(j as int, sb[p as int]).update(p as int, sb[j as int]));
                    crate::sort::lemma_swap_multiset(sb, j as int, p as int);
                }
                j = p;
            } else {
                break ;
            }
        }
    }

    /// Sinks the root down, swapping it with its larger child until
    /// both children are at most as large, restoring the heap shape
    /// broken only at the root.
    fn sift_down(v: &mut Vec<T>)
        requires
            lawful_ord::<T>(),
            old(v)@.len() > 0,
            forall|i: int|
                1 <= i < old(v)@.len() && (i - 1) / 2 != 0 ==> le(#[trigger] old(v)@[i], old(
                    v,
                )@[(i - 1) / 2]),
        ensures
            final(v)@.len() == old(v)@.len(),
            final(v)@.to_multiset() == old(v)@.to_multiset(),
            is_heap(final(v)@),
    {
        proof {
            lemma_lawful_ord::<T>();
        }
        let len = v.len();
        let mut j: usize = 0;
        loop
            invariant
                lawful_ord::<T>(),
                v@.len() == len,
                0 <= j < len,
                v@.to_multiset() == old(v)@.to_multiset(),
                forall|i: int|
                    1 <= i < len && (i - 1) / 2 != j ==> le(#[trigger] v@[i], v@[(i - 1) / 2]),
                j > 0 ==> forall|c: int|
                    1 <= c < len && (c - 1) / 2 == j ==> le(#[trigger] v@[c], v@[(j - 1) / 2]),
            ensures
                forall|c: int| 1 <= c < len && (c - 1) / 2 == j ==> le(#[trigger] v@[c], v@[j as int]),
            decreases len - j,
        {
            proof {
                lemma_lawful_ord::<T>();
            }
            if j >= len / 2 {
                proof {
                    assert(forall|c: int| 1 <= c < len ==> #[trigger] ((c - 1) / 2) < len / 2);
                }
                break ;
            }
            let c1 = 2 * j + 1;
            let mut m = j;
            if v[m].lt(&v[c1]) {
                m = c1;
            }
            if c1 + 1 < len {
                if v[m].lt(&v[c1 + 1]) {
                    m = c1 + 1;
                }
            }
            if m == j {
                proof {
                    assert(forall|c: int|
                        1 <= c < len && #[trigger] ((c - 1) / 2) == j ==> c == c1 || c == c1 + 1);
                }
                break ;
            }
            let ghost sb = v@;
            let a = v[j];
            let b = v[m];
            v[j] = b;
            v[m] = a;
            proof {
                assert(v@ =~= sb.update(j as int, sb[m as int]).update(m as int, sb[j as int]));
                crate::sort::lemma_swap_multiset(sb, j as int, m as int);
                assert(forall|c: int|
                        1 <= c < len && #[trigger] ((c - 1) / 2) == j ==> c == c1 || c == c1 + 1);
            }
            j = m;
        }
        proof {
            assert forall|i: int| 1 <= i < len implies le(#[trigger] v@[i], v@[(i - 1) / 2]) by {
                if (i - 1) / 2 == j {
                }
            }
        }
    }
}

} // verus!
