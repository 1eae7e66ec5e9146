//! Binary trees: a plain tree with the three depth-first traversal
//! orders, and a binary search tree with ordered insert and search.

use vstd::prelude::*;

verus! {

use crate::order::lawful_ord;
use crate::order::le;
use crate::order::lemma_lawful_ord;
use vstd::multiset::Multiset;

/// A node of a plain binary tree. `root` is a marker that, when set on
/// a childless node, makes the traversals skip that node entirely;
/// nodes built by `new` leave it unset.
pub struct BinaryTree<T> {
    pub root: Option<()>,
    pub elt: T,
    pub left: Option<Box<BinaryTree<T>>>,
    pub right: Option<Box<BinaryTree<T>>>,
}

impl<T> BinaryTree<T> {
    /// A marked childless node contributes nothing to a traversal.
    pub open spec fn silent(self) -> bool {
        self.root is Some && self.left is None && self.right is None
    }

    /// The pre-order traversal: the node, then its left subtree, then
    /// its right subtree.
    pub open spec fn pre_seq(self) -> Seq<T>
        decreases self,
    {
        if self.silent() {
            Seq::empty()
        } else {
            seq![self.elt] + BinaryTree::opt_pre(self.left) + BinaryTree::opt_pre(self.right)
        }
    }

    /// The pre-order traversal of an optional subtree.
    pub open spec fn opt_pre(o: Option<Box<BinaryTree<T>>>) -> Seq<T>
        decreases o,
    {
        match o {
            None => Seq::empty(),
            Some(b) => b.pre_seq(),
        }
    }

    /// The in-order traversal: left subtree, the node, right subtree.
    pub open spec fn in_seq(self) -> Seq<T>
        decreases self,
    {
        if self.silent() {
            Seq::empty()
        } else {
            BinaryTree::opt_in(self.left) + seq![self.elt] + BinaryTree::opt_in(self.right)
        }
    }

    /// The in-order traversal of an optional subtree.
    pub open spec fn opt_in(o: Option<Box<BinaryTree<T>>>) -> Seq<T>
        decreases o,
    {
        match o {
            None => Seq::empty(),
            Some(b) => b.in_seq(),
        }
    }

    /// The post-order traversal: left subtree, right subtree, then the
    /// node.
    pub open spec fn post_seq(self) -> Seq<T>
        decreases self,
    {
        if self.silent() {
            Seq::empty()
        } else {
            BinaryTree::opt_post(self.left) + BinaryTree::opt_post(self.right) + seq![self.elt]
        }
    }

    /// The post-order traversal of an optional subtree.
    pub open spec fn opt_post(o: Option<Box<BinaryTree<T>>>) -> Seq<T>
        decreases o,
    {
        match o {
            None => Seq::empty(),
            Some(b) => b.post_seq(),
        }
    }

    /// A leaf holding `n`, with the marker unset.
    pub fn new(n: T) -> (r: Self)
        ensures
            r.root is None,
            r.elt == n,
            r.left is None,
            r.right is None,
    {
        BinaryTree { root: None, elt: n, left: None, right: None }
    }
}

impl<T: Copy> BinaryTree<T> {
    /// Collects the pre-order traversal.
    pub fn pre_order(&self) -> (r: Vec<T>)
        ensures
            r@ == self.pre_seq(),
        decreases *self,
    {
        let mut r: Vec<T> = Vec::new();
        if self.root.is_some() && self.left.is_none() && self.right.is_none() {
            return r;
        }
        r.push(self.elt);
        if let Some(l) = &self.left {
            let mut lv = l.pre_order();
            r.append(&mut lv);
        }
        if let Some(t) = &self.right {
            let mut tv = t.pre_order();
            r.append(&mut tv);
        }
        proof {
            assert(r@ =~= self.pre_seq());
        }
        r
    }

    /// Collects the in-order traversal.
    pub fn in_order(&self) -> (r: Vec<T>)
        ensures
            r@ == self.in_seq(),
        decreases *self,
    {
        let mut r: Vec<T> = Vec::new();
        if self.root.is_some() && self.left.is_none() && self.right.is_none() {
            return r;
        }
        if let Some(l) = &self.left {
            let mut lv = l.in_order();
            r.append(&mut lv);
        }
        r.push(self.elt);
        if let Some(t) = &self.right {
            let mut tv = t.in_order();
            r.append(&mut tv);
        }
        proof {
            assert(r@ =~= self.in_seq());
        }
        r
    }

    /// Collects the post-order traversal.
    pub fn post_order(&self) -> (r: Vec<T>)
        ensures
            r@ == self.post_seq(),
        decreases *self,
    {
        let mut r: Vec<T> = Vec::new();
        if self.root.is_some() && self.left.is_none() && self.right.is_none() {
            return r;
        }
        if let Some(l) = &self.left {
            let mut lv = l.post_order();
            r.append(&mut lv);
        }
        if let Some(t) = &self.right {
            let mut tv = t.post_order();
            r.append(&mut tv);
        }
        r.push(self.elt);
        proof {
            assert(r@ =~= self.post_seq());
        }
        r
    }
}

/// A binary search tree holding bare elements: everything in a node's
/// left subtree is smaller than the node's element, everything in its
/// right subtree at least as large (equal elements go right).
pub struct BinarySearchTree<T> {
    elt: Option<T>,
    left: Option<Box<BinarySearchTree<T>>>,
    right: Option<Box<BinarySearchTree<T>>>,
}

impl<T> BinarySearchTree<T> {
    /// The stored elements as a multiset.
    pub closed spec fn elems(self) -> Multiset<T>
        decreases self,
    {
        (match self.elt {
            None => Multiset::empty(),
            Some(e) => Multiset::singleton(e),
        }).add(opt_elems(self.left)).add(opt_elems(self.right))
    }
}

/// The elements of an optional subtree.
pub closed spec fn opt_elems<T>(o: Option<Box<BinarySearchTree<T>>>) -> Multiset<T>
    decreases o,
{
    match o {
        None => Multiset::empty(),
        Some(b) => b.elems(),
    }
}

impl<T: Ord> BinarySearchTree<T> {
    /// The search-tree ordering: an empty node has no children; left
    /// elements are smaller than the node's element, right elements at
    /// least as large.
    pub closed spec fn wf(self) -> bool
        decreases self,
    {
        match self.elt {
            None => self.left is None && self.right is None,
            Some(e) => {
                &&& (forall|x: T| #[trigger] opt_elems(self.left).contains(x) ==> !le(e, x))
                &&& (forall|x: T| #[trigger] opt_elems(self.right).contains(x) ==> le(e, x))
                &&& opt_wf(self.left)
                &&& opt_wf(self.right)
            },
        }
    }
}

/// The search-tree ordering of an optional subtree; a present subtree
/// is never an empty node.
pub closed spec fn opt_wf<T: Ord>(o: Option<Box<BinarySearchTree<T>>>) -> bool
    decreases o,
{
    match o {
        None => true,
        Some(b) => b.wf() && b.elems().len() > 0,
    }
}

impl<T: Ord + Clone> BinarySearchTree<T> {
    /// An empty tree.
    pub fn new() -> (r: Self)
        ensures
            r.wf(),
            r.elems() == Multiset::<T>::empty(),
    {
        let r = BinarySearchTree { elt: None, left: None, right: None };
        proof {
            broadcast use vstd::multiset::group_multiset_axioms;

            assert(r.elems() =~= Multiset::<T>::empty());
        }
        r
    }

    /// Looks `n` up along the ordering; returns the matching stored
    /// element exactly when `n` is held.
    pub fn search(&self, n: T) -> (r: Option<&T>)
        requires
            lawful_ord::<T>(),
            self.wf(),
        ensures
            r is Some <==> self.elems().contains(n),
            r matches Some(x) ==> *x == n,
        decreases *self,
    {
        broadcast use vstd::multiset::group_multiset_axioms;

        proof {
            lemma_lawful_ord::<T>();
        }
        match &self.elt {
            None => {
                proof {
                    assert(!self.elems().contains(n));
                }
                None
            },
            Some(e) => {
                if n.eq(e) {
                    proof {
                        assert(self.elems().contains(n));
                    }
                    Some(e)
                } else {
                    let less = n.lt(e);
                    let next = if less {
                        &self.left
                    } else {
                        &self.right
                    };
                    let r = match next {
                        None => None,
                        Some(node) => node.search(n),
                    };
                    proof {
                        let ghost me = Multiset::singleton(*e);
                        assert(self.elems() == me.add(opt_elems(self.left)).add(
                            opt_elems(self.right),
                        ));
                        assert(me.count(n) == 0);
                        if less {
                            if opt_elems(self.right).contains(n) {
                                assert(le(*e, n) && le(n, *e));
                                assert(false);
                            }
                            assert(self.elems().contains(n) <==> opt_elems(self.left).contains(n));
                        } else {
                            if opt_elems(self.left).contains(n) {
                                assert(!le(*e, n) && !le(n, *e));
                                assert(false);
                            }
                            assert(self.elems().contains(n) <==> opt_elems(self.right).contains(n));
                        }
                        match next {
                            None => {
                                assert(!self.elems().contains(n));
                            },
                            Some(node) => {
                                assert(opt_elems(*next) == node.elems());
                            },
                        }
                    }
                    r
                }
            },
        }
    }

    /// Inserts `n` at its ordered position, keeping duplicates.
    pub fn push(&mut self, n: T)
        requires
            lawful_ord::<T>(),
            old(self).wf(),
        ensures
            final(self).wf(),
            final(self).elems() == old(self).elems().insert(n),
        decreases *old(self),
    {
        broadcast use vstd::multiset::group_multiset_axioms;

        proof {
            lemma_lawful_ord::<T>();
        }
        let go_left = match &self.elt {
            None => {
                self.elt = Some(n);
                proof {
                    assert(self.elems() =~= old(self).elems().insert(n));
                }
                return ;
            },
            Some(e) => n.lt(e),
        };
        if go_left {
            Self::push_opt(&mut self.left, n);
            proof {
                let e = old(self).elt.unwrap();
                assert(le(n, e) && n != e);
                assert forall|x: T| #[trigger] opt_elems(self.left).contains(x) implies !le(
                    e,
                    x,
                ) by {
                    if x == n {
                        if le(e, n) {
                            assert(false);
                        }
                    } else {
                        assert(opt_elems(self.left).count(x) == opt_elems(
                            old(self).left,
                        ).insert(n).count(x));
                        assert(opt_elems(old(self).left).contains(x));
                    }
                }
            }
        } else {
            Self::push_opt(&mut self.right, n);
            proof {
                let e = old(self).elt.unwrap();
                assert(le(e, n));
                assert forall|x: T| #[trigger] opt_elems(self.right).contains(x) implies le(
                    e,
                    x,
                ) by {
                    if x != n {
                        assert(opt_elems(self.right).count(x) == opt_elems(
                            old(self).right,
                        ).insert(n).count(x));
                        assert(opt_elems(old(self).right).contains(x));
                    }
                }
            }
        }
        proof {
            assert(self.elems() =~= old(self).elems().insert(n));
        }
    }

    /// Removes one stored occurrence of `n`, if any. A node holding the
    /// match is refilled with the smallest element of its right
    /// subtree; with no right subtree its left subtree takes its
    /// place.
    pub fn delete(&mut self, n: T)
        requires
            lawful_ord::<T>(),
            old(self).wf(),
        ensures
            final(self).wf(),
            final(self).elems() == old(self).elems().remove(n),
        decreases *old(self),
    {
        broadcast use vstd::multiset::group_multiset_axioms;

        proof {
            lemma_lawful_ord::<T>();
        }
        let (present, here, less): (bool, bool, bool) = match &self.elt {
            None => (false, false, false),
            Some(e) => {
                if n.eq(e) {
                    (true, true, false)
                } else {
                    (true, false, n.lt(e))
                }
            },
        };
        if !present {
            proof {
                assert(self.elems() =~= old(self).elems().remove(n));
            }
            return ;
        }
        let ghost e = old(self).elt.unwrap();
        if here {
            if self.right.is_some() {
                let m = Self::take_min(&mut self.right);
                self.elt = Some(m);
                proof {
                    assert(opt_elems(old(self).right).contains(m));
                    assert(le(e, m));
                    assert forall|x: T| #[trigger] opt_elems(self.left).contains(x) implies !le(
                        m,
                        x,
                    ) by {
                        if le(m, x) {
                            assert(le(e, x));
                        }
                    }
                    assert forall|x: T| #[trigger] opt_elems(self.right).contains(x) implies le(
                        m,
                        x,
                    ) by {
                        assert(opt_elems(self.right).count(x) > 0);
                        assert(opt_elems(old(self).right).count(x) > 0);
                        assert(opt_elems(old(self).right).contains(x));
                    }
                    assert(self.elems() =~= old(self).elems().remove(n));
                }
            } else if self.left.is_some() {
                let l = self.left.take().unwrap();
                *self = *l;
                proof {
                    assert(self.elems() =~= old(self).elems().remove(n));
                }
            } else {
                self.elt = None;
                proof {
                    assert(self.elems() =~= old(self).elems().remove(n));
                }
            }
            return ;
        }
        if less {
            Self::delete_opt(&mut self.left, n);
            proof {
                if opt_elems(old(self).right).contains(n) {
                    assert(le(e, n) && le(n, e));
                    assert(false);
                }
                assert forall|x: T| #[trigger] opt_elems(self.left).contains(x) implies !le(
                    e,
                    x,
                ) by {
                    assert(opt_elems(self.left).count(x) > 0);
                    assert(opt_elems(old(self).left).count(x) > 0);
                    assert(opt_elems(old(self).left).contains(x));
                }
                assert(self.elems() =~= old(self).elems().remove(n));
            }
        } else {
            Self::delete_opt(&mut self.right, n);
            proof {
                if opt_elems(old(self).left).contains(n) {
                    assert(!le(e, n) && !le(n, e));
                    assert(false);
                }
                assert forall|x: T| #[trigger] opt_elems(self.right).contains(x) implies le(
                    e,
                    x,
                ) by {
                    assert(opt_elems(self.right).count(x) > 0);
                    assert(opt_elems(old(self).right).count(x) > 0);
                    assert(opt_elems(old(self).right).contains(x));
                }
                assert(self.elems() =~= old(self).elems().remove(n));
            }
        }
    }

    /// Removes one occurrence of `n` from an optional subtree, pruning
    /// the node when it becomes empty.
    fn delete_opt(o: &mut Option<Box<BinarySearchTree<T>>>, n: T)
        requires
            lawful_ord::<T>(),
            opt_wf(*old(o)),
        ensures
            opt_wf(*final(o)),
            opt_elems(*final(o)) == opt_elems(*old(o)).remove(n),
        decreases *old(o),
    {
        broadcast use vstd::multiset::group_multiset_axioms;

        match o.take() {
            None => {
                proof {
                    assert(opt_elems(*o) =~= opt_elems(*old(o)).remove(n));
                }
            },
            Some(mut b) => {
                b.delete(n);
                if b.elt.is_some() {
                    *o = Some(b);
                } else {
                    proof {
                        assert(b.elems().len() == 0);
                    }
                    *o = None;
                    proof {
                        assert(opt_elems(*o) =~= opt_elems(*old(o)).remove(n));
                    }
                }
            },
        }
    }

    /// Detaches and returns the smallest element of a non-empty
    /// optional subtree.
    fn take_min(o: &mut Option<Box<BinarySearchTree<T>>>) -> (r: T)
        requires
            lawful_ord::<T>(),
            opt_wf(*old(o)),
            *old(o) is Some,
        ensures
            opt_wf(*final(o)),
            opt_elems(*old(o)).contains(r),
            opt_elems(*final(o)) == opt_elems(*old(o)).remove(r),
            forall|x: T| #[trigger] opt_elems(*old(o)).contains(x) ==> le(r, x),
        decreases *old(o),
    {
        broadcast use vstd::multiset::group_multiset_axioms;

        proof {
            lemma_lawful_ord::<T>();
        }
        let boxed = o.take().unwrap();
        let mut node = *boxed;
        let ghost orig = node;
        let ghost e = node.elt.unwrap();
        proof {
            assert(orig.wf());
            if orig.elt is None {
                assert(orig.elems().len() == 0);
            }
            assert(opt_elems(*old(o)) == orig.elems());
            assert(orig.elems() == Multiset::singleton(e).add(opt_elems(orig.left)).add(
                opt_elems(orig.right),
            ));
        }
        if node.left.is_some() {
            let m = Self::take_min(&mut node.left);
            proof {
                assert(opt_elems(orig.left).contains(m));
                assert(!le(e, m));
                assert(le(m, e));
                assert(orig.elems().count(m) > 0);
                assert forall|x: T| #[trigger] orig.elems().contains(x) implies le(m, x) by {
                    if x == e {
                    } else if opt_elems(orig.left).count(x) > 0 {
                        assert(opt_elems(orig.left).contains(x));
                    } else {
                        assert(opt_elems(orig.right).count(x) > 0);
                        assert(opt_elems(orig.right).contains(x));
                        assert(le(e, x));
                    }
                }
                assert forall|x: T| #[trigger] opt_elems(node.left).contains(x) implies !le(
                    e,
                    x,
                ) by {
                    assert(opt_elems(node.left).count(x) > 0);
                    assert(opt_elems(orig.left).count(x) > 0);
                    assert(opt_elems(orig.left).contains(x));
                }
            }
            *o = Some(Box::new(node));
            proof {
                assert(opt_elems(*o) == node.elems());
                assert(node.elems() == Multiset::singleton(e).add(opt_elems(node.left)).add(
                    opt_elems(node.right),
                ));
                assert(opt_elems(node.left) == opt_elems(orig.left).remove(m));
                assert(opt_elems(*o) =~= opt_elems(*old(o)).remove(m));
            }
            m
        } else {
            let m = node.elt.unwrap();
            *o = node.right;
            proof {
                assert(orig.elems().count(m) > 0);
                assert(opt_elems(*o) =~= opt_elems(*old(o)).remove(m));
                assert forall|x: T| #[trigger] opt_elems(*old(o)).contains(x) implies le(m, x) by {
                    if x != m {
                        assert(opt_elems(orig.left).count(x) == 0);
                        assert(opt_elems(orig.right).count(x) > 0);
                        assert(opt_elems(orig.right).contains(x));
                    }
                }
            }
            m
        }
    }

    /// Inserts `n` into an optional subtree, creating the node when the
    /// subtree is empty.
    fn push_opt(o: &mut Option<Box<BinarySearchTree<T>>>, n: T)
        requires
            lawful_ord::<T>(),
            opt_wf(*old(o)),
        ensures
            opt_wf(*final(o)),
            opt_elems(*final(o)) == opt_elems(*old(o)).insert(n),
        decreases *old(o),
    {
        broadcast use vstd::multiset::group_multiset_axioms;

        match o.take() {
            None => {
                let node = BinarySearchTree { elt: Some(n), left: None, right: None };
                *o = Some(Box::new(node));
                proof {
                    assert(opt_elems(*o) =~= opt_elems(*old(o)).insert(n));
                }
            },
            Some(mut b) => {
                b.push(n);
                *o = Some(b);
            },
        }
    }
}

} // verus!
