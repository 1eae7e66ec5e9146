//! A singly-linked list: every node exclusively owns its successor, the
//! list owns the head, and all splicing is done by taking a link out,
//! relinking it, and putting it back — no node is ever shared.
//!
//! Besides the indexed operations that let the list serve as a cache
//! backend, the list offers in-place reversal, a stable merge of two
//! sorted lists, and conversions to and from a plain vector.

use vstd::prelude::*;

verus! {

use crate::order::lawful_eq;
use crate::order::lawful_ord;
use crate::order::le;
use crate::order::lemma_lawful_eq;
use crate::order::lemma_lawful_ord;
use crate::order::lemma_merge_sorted;
use crate::order::merge_seqs;
use crate::order::sorted;
use vstd::std_specs::cmp::OrdSpec;
use vstd::std_specs::cmp::PartialOrdSpec;

/// One link of the chain; `next` owns the rest of the list.
struct Node<T> {
    element: T,
    next: Option<Box<Node<T>>>,
}

impl<T> Node<T> {
    /// The elements hanging off an optional link, head first.
    spec fn opt_seq(node: Option<Box<Node<T>>>) -> Seq<T>
        decreases node,
    {
        match node {
            None => Seq::empty(),
            Some(n) => seq![n.element] + Node::opt_seq(n.next),
        }
    }

    /// Appends a fresh node holding `n` after the last link.
    fn push_last(node: &mut Option<Box<Node<T>>>, n: T)
        ensures
            Node::opt_seq(*final(node)) == Node::opt_seq(*old(node)).push(n),
        decreases *old(node),
    {
        match node.take() {
            None => {
                *node = Some(Box::new(Node { element: n, next: None }));
                assert(Node::opt_seq(*node) =~= Node::opt_seq(*old(node)).push(n));
            },
            Some(mut b) => {
                Self::push_last(&mut b.next, n);
                *node = Some(b);
                assert(Node::opt_seq(*node) =~= Node::opt_seq(*old(node)).push(n));
            },
        }
    }

    /// Detaches the last link and returns its element.
    fn pop_last(node: &mut Option<Box<Node<T>>>) -> (r: Option<T>)
        ensures
            Node::opt_seq(*old(node)).len() > 0 ==> {
                &&& r == Some(Node::opt_seq(*old(node)).last())
                &&& Node::opt_seq(*final(node)) == Node::opt_seq(*old(node)).drop_last()
            },
            Node::opt_seq(*old(node)).len() == 0 ==> r == None::<T> && *final(node) == *old(node),
        decreases *old(node),
    {
        match node.take() {
            None => None,
            Some(mut b) => {
                if b.next.is_none() {
                    assert(Node::opt_seq(*node) =~= Node::opt_seq(*old(node)).drop_last());
                    Some(b.element)
                } else {
                    let r = Self::pop_last(&mut b.next);
                    *node = Some(b);
                    assert(Node::opt_seq(*node) =~= Node::opt_seq(*old(node)).drop_last());
                    r
                }
            },
        }
    }

    /// Reads the element `i` links from this point.
    fn read_at<'a>(node: &'a Option<Box<Node<T>>>, i: usize) -> (r: Option<&'a T>)
        ensures
            i < Node::opt_seq(*node).len() ==> (r matches Some(v) && *v == Node::opt_seq(
                *node,
            )[i as int]),
            i >= Node::opt_seq(*node).len() ==> r is None,
        decreases node,
    {
        match node {
            None => None,
            Some(b) => {
                if i == 0 {
                    Some(&b.element)
                } else {
                    Self::read_at(&b.next, i - 1)
                }
            },
        }
    }

    /// Splices the link `i` steps away out of the chain and returns its
    /// element; out-of-range indices leave the chain unchanged.
    fn splice_out(node: &mut Option<Box<Node<T>>>, i: usize) -> (r: Option<T>)
        ensures
            i < Node::opt_seq(*old(node)).len() ==> {
                &&& r == Some(Node::opt_seq(*old(node))[i as int])
                &&& Node::opt_seq(*final(node)) == Node::opt_seq(*old(node)).remove(i as int)
            },
            i >= Node::opt_seq(*old(node)).len() ==> r == None::<T> && *final(node) == *old(node),
        decreases *old(node),
    {
        match node.take() {
            None => None,
            Some(mut b) => {
                if i == 0 {
                    *node = b.next;
                    assert(Node::opt_seq(*node) =~= Node::opt_seq(*old(node)).remove(0));
                    Some(b.element)
                } else {
                    let r = Self::splice_out(&mut b.next, i - 1);
                    *node = Some(b);
                    proof {
                        if i < Node::opt_seq(*old(node)).len() {
                            assert(Node::opt_seq(*node) =~= Node::opt_seq(*old(node)).remove(
                                i as int,
                            ));
                        }
                    }
                    r
                }
            },
        }
    }

    /// Splices a fresh node holding `n` in `i` steps away, so that it
    /// becomes the element at position `i`; fails past the append
    /// position.
    fn splice_in(node: &mut Option<Box<Node<T>>>, i: usize, n: T) -> (r: Option<()>)
        ensures
            i <= Node::opt_seq(*old(node)).len() ==> {
                &&& r == Some(())
                &&& Node::opt_seq(*final(node)) == Node::opt_seq(*old(node)).insert(i as int, n)
            },
            i > Node::opt_seq(*old(node)).len() ==> r == None::<()> && *final(node) == *old(node),
        decreases *old(node),
    {
        if i == 0 {
            let rest = node.take();
            *node = Some(Box::new(Node { element: n, next: rest }));
            assert(Node::opt_seq(*node) =~= Node::opt_seq(*old(node)).insert(0, n));
            Some(())
        } else {
            match node.take() {
                None => None,
                Some(mut b) => {
                    let r = Self::splice_in(&mut b.next, i - 1, n);
                    *node = Some(b);
                    proof {
                        if i <= Node::opt_seq(*old(node)).len() {
                            assert(Node::opt_seq(*node) =~= Node::opt_seq(*old(node)).insert(
                                i as int,
                                n,
                            ));
                        }
                    }
                    r
                },
            }
        }
    }
}

/// Singly-linked list: an optional head node and a length field that
/// tracks the number of links.
pub struct Linked<T> {
    head: Option<Box<Node<T>>>,
    len: usize,
}

impl<T: Clone> Node<T> {
    /// Rebuilds a chain node by node, cloning each element.
    fn clone_chain(node: &Option<Box<Node<T>>>) -> Option<Box<Node<T>>>
        decreases node,
    {
        match node {
            None => None,
            Some(b) => Some(
                Box::new(Node { element: b.element.clone(), next: Self::clone_chain(&b.next) }),
            ),
        }
    }
}

impl<T: Clone> Clone for Linked<T> {
    /// A structural copy; nothing is claimed of the cloned elements.
    fn clone(&self) -> Self {
        Linked { head: Node::clone_chain(&self.head), len: self.len }
    }
}

impl<T> Linked<T> {
    /// The stored elements, head first.
    pub closed spec fn contents(&self) -> Seq<T> {
        Node::opt_seq(self.head)
    }

    /// The value of the length field.
    pub closed spec fn size(&self) -> usize {
        self.len
    }

    /// The length field counts the links.
    pub open spec fn wf(&self) -> bool {
        self.size() == self.contents().len()
    }

    /// An empty list.
    pub fn new() -> (r: Self)
        ensures
            r.wf(),
            r.contents() == Seq::<T>::empty(),
    {
        Linked { head: None, len: 0 }
    }

    /// The number of stored elements.
    pub fn len(&self) -> (r: usize)
        ensures
            r == self.size(),
    {
        self.len
    }

    /// Appends `n` after the last node; if the list is empty the new
    /// node becomes the head.
    pub fn push(&mut self, n: T)
        requires
            old(self).wf(),
            old(self).contents().len() < usize::MAX,
        ensures
            final(self).wf(),
            final(self).contents() == old(self).contents().push(n),
    {
        Node::push_last(&mut self.head, n);
        self.len = self.len + 1;
    }

    /// Detaches the last node and returns its element; fails on an
    /// empty list.
    pub fn pop(&mut self) -> (r: Option<T>)
        requires
            old(self).wf(),
        ensures
            final(self).wf(),
            old(self).contents().len() > 0 ==> {
                &&& r == Some(old(self).contents().last())
                &&& final(self).contents() == old(self).contents().drop_last()
            },
            old(self).contents().len() == 0 ==> r == None::<T> && *final(self) == *old(self),
    {
        let r = Node::pop_last(&mut self.head);
        if r.is_some() {
            self.len = self.len - 1;
        }
        r
    }

    /// Reads the element at position `i`; fails when `i` is out of
    /// range.
    pub fn index(&self, i: usize) -> (r: Option<&T>)
        ensures
            i < self.contents().len() ==> (r matches Some(v) && *v == self.contents()[i as int]),
            i >= self.contents().len() ==> r is None,
    {
        Node::read_at(&self.head, i)
    }

    /// Removes and returns the element at position `i`, splicing its
    /// successor onto the predecessor; fails when `i` is out of range.
    pub fn remove(&mut self, i: usize) -> (r: Option<T>)
        requires
            old(self).wf(),
        ensures
            final(self).wf(),
            i < old(self).contents().len() ==> {
                &&& r == Some(old(self).contents()[i as int])
                &&& final(self).contents() == old(self).contents().remove(i as int)
            },
            i >= old(self).contents().len() ==> r == None::<T> && *final(self) == *old(self),
    {
        let r = Node::splice_out(&mut self.head, i);
        if r.is_some() {
            self.len = self.len - 1;
        }
        r
    }

    /// Inserts `n` so that it becomes the element at position `i`,
    /// shifting the rest back; `i` equal to the length appends. Fails
    /// when `i` is past the append position.
    pub fn insert(&mut self, i: usize, n: T) -> (r: Option<()>)
        requires
            old(self).wf(),
            old(self).contents().len() < usize::MAX,
        ensures
            final(self).wf(),
            i <= old(self).contents().len() ==> {
                &&& r == Some(())
                &&& final(self).contents() == old(self).contents().insert(i as int, n)
            },
            i > old(self).contents().len() ==> r == None::<()> && *final(self) == *old(self),
    {
        let r = Node::splice_in(&mut self.head, i, n);
        if r.is_some() {
            self.len = self.len + 1;
        }
        r
    }

    /// Reverses the list in place by walking the chain and relinking
    /// each node as the new head; no node is created or destroyed.
    pub fn reverse(&mut self)
        requires
            old(self).wf(),
        ensures
            final(self).wf(),
            final(self).contents() == old(self).contents().reverse(),
    {
        let ghost orig = self.contents();
        let mut acc: Option<Box<Node<T>>> = None;
        let mut cur = self.head.take();
        loop
            invariant
                orig == Node::opt_seq(acc).reverse() + Node::opt_seq(cur),
            ensures
                cur is None,
            decreases Node::opt_seq(cur).len(),
        {
            match cur {
                None => { break ; },
                Some(mut b) => {
                    cur = b.next.take();
                    b.next = acc;
                    proof {
                        assert(Node::opt_seq(Some(b)).reverse() =~= Node::opt_seq(
                            b.next,
                        ).reverse().push(b.element));
                        assert(orig =~= Node::opt_seq(Some(b)).reverse() + Node::opt_seq(cur));
                    }
                    acc = Some(b);
                },
            }
        }
        proof {
            lemma_reverse_reverse(Node::opt_seq(acc));
            assert(Node::opt_seq(acc).reverse() =~= Node::opt_seq(acc).reverse() + Node::opt_seq(
                cur,
            ));
            assert(Node::opt_seq(acc) =~= orig.reverse());
        }
        self.head = acc;
    }

    /// Builds a list holding the elements of `v` in order.
    pub fn from_vec(v: Vec<T>) -> (r: Self)
        ensures
            r.wf(),
            r.contents() == v@,
    {
        let ghost orig = v@;
        let n = v.len();
        let mut v = v;
        let mut l = Linked::new();
        loop
            invariant
                l.wf(),
                orig == v@ + l.contents(),
                orig.len() == n,
            ensures
                v@.len() == 0,
            decreases v@.len(),
        {
            match v.pop() {
                None => { break ; },
                Some(x) => {
                    let ghost before = l.contents();
                    l.insert(0, x);
                    proof {
                        assert(before.insert(0, x) =~= seq![x] + before);
                        assert(orig =~= v@ + l.contents());
                    }
                },
            }
        }
        proof {
            assert(v@ + l.contents() =~= l.contents());
        }
        l
    }

    /// Hands the elements back as a vector, in list order.
    pub fn to_vec(self) -> (r: Vec<T>)
        ensures
            r@ == self.contents(),
    {
        let ghost orig = self.contents();
        let mut v: Vec<T> = Vec::new();
        let mut cur = self.head;
        loop
            invariant
                orig == v@ + Node::opt_seq(cur),
            ensures
                cur is None,
            decreases Node::opt_seq(cur).len(),
        {
            match cur {
                None => { break ; },
                Some(b) => {
                    let node = *b;
                    v.push(node.element);
                    cur = node.next;
                    proof {
                        assert(orig =~= v@ + Node::opt_seq(cur));
                    }
                },
            }
        }
        proof {
            assert(orig =~= v@);
        }
        v
    }
}

impl<T: Ord> Node<T> {
    /// Recursively merges two sorted chains, consuming one head node
    /// per step; ties take the node of the first chain.
    fn merge_chains(n: Option<Box<Node<T>>>, m: Option<Box<Node<T>>>) -> (r: Option<Box<Node<T>>>)
        requires
            lawful_ord::<T>(),
        ensures
            Node::opt_seq(r) == merge_seqs(Node::opt_seq(n), Node::opt_seq(m)),
        decreases Node::opt_seq(n).len() + Node::opt_seq(m).len(),
    {
        proof {
            lemma_lawful_ord::<T>();
        }
        let ghost sn = Node::opt_seq(n);
        let ghost sm = Node::opt_seq(m);
        match (n, m) {
            (Some(x), None) => Some(x),
            (None, Some(y)) => Some(y),
            (None, None) => None,
            (Some(mut x), Some(mut y)) => {
                let ghost xe = x.element;
                let ghost ye = y.element;
                if x.element.gt(&y.element) {
                    proof {
                        assert(xe.partial_cmp_spec(&ye) == Some(xe.cmp_spec(&ye)));
                        assert(!le(sn[0], sm[0]));
                    }
                    let rest = y.next.take();
                    proof {
                        assert(sm.drop_first() =~= Node::opt_seq(rest));
                    }
                    y.next = Self::merge_chains(Some(x), rest);
                    proof {
                        assert(merge_seqs(sn, sm) == seq![sm[0]] + merge_seqs(
                            sn,
                            sm.drop_first(),
                        ));
                        assert(Node::opt_seq(Some(y)) =~= merge_seqs(sn, sm));
                    }
                    Some(y)
                } else {
                    proof {
                        assert(xe.partial_cmp_spec(&ye) == Some(xe.cmp_spec(&ye)));
                        assert(le(sn[0], sm[0]));
                    }
                    let rest = x.next.take();
                    proof {
                        assert(sn.drop_first() =~= Node::opt_seq(rest));
                    }
                    x.next = Self::merge_chains(rest, Some(y));
                    proof {
                        assert(merge_seqs(sn, sm) == seq![sn[0]] + merge_seqs(
                            sn.drop_first(),
                            sm,
                        ));
                        assert(Node::opt_seq(Some(x)) =~= merge_seqs(sn, sm));
                    }
                    Some(x)
                }
            },
        }
    }
}

impl<T: Ord> Linked<T> {
    /// Merges two sorted lists into one sorted list holding every
    /// element of both, by repeatedly taking ownership of whichever
    /// head is smaller (ties favour the first list). Fails only when
    /// both lists are empty.
    pub fn merge_order(n: Linked<T>, m: Linked<T>) -> (r: Option<Linked<T>>)
        requires
            lawful_ord::<T>(),
            n.wf(),
            m.wf(),
            sorted(n.contents()),
            sorted(m.contents()),
            n.contents().len() + m.contents().len() <= usize::MAX,
        ensures
            ({
                let merged = merge_seqs(n.contents(), m.contents());
                &&& n.contents().len() + m.contents().len() > 0 ==> (r matches Some(l) && {
                    &&& l.wf()
                    &&& l.contents() == merged
                    &&& sorted(l.contents())
                    &&& l.contents().to_multiset() == n.contents().to_multiset().add(
                        m.contents().to_multiset(),
                    )
                    &&& l.contents().len() == n.contents().len() + m.contents().len()
                })
                &&& n.contents().len() + m.contents().len() == 0 ==> r is None
            }),
    {
        proof {
            lemma_merge_sorted(n.contents(), m.contents());
        }
        let total = n.len + m.len;
        match Node::merge_chains(n.head, m.head) {
            None => None,
            Some(node) => Some(Linked { head: Some(node), len: total }),
        }
    }
}

impl<T: PartialEq> Node<T> {
    /// Whether some element of the chain equals `*n`.
    fn chain_contains(node: &Option<Box<Node<T>>>, n: &T) -> (r: bool)
        requires
            lawful_eq::<T>(),
        ensures
            r == Node::opt_seq(*node).contains(*n),
        decreases node,
    {
        proof {
            lemma_lawful_eq::<T>();
        }
        match node {
            None => false,
            Some(b) => {
                let ghost s = Node::opt_seq(*node);
                if b.element.eq(n) {
                    proof {
                        assert(s[0] == *n);
                    }
                    true
                } else {
                    let r = Self::chain_contains(&b.next, n);
                    proof {
                        let rest = Node::opt_seq(b.next);
                        assert(rest =~= s.drop_first());
                        if r {
                            let i = choose|i: int| 0 <= i < rest.len() && rest[i] == *n;
                            assert(s[i + 1] == *n);
                        } else if s.contains(*n) {
                            let i = choose|i: int| 0 <= i < s.len() && s[i] == *n;
                            assert(i > 0 && rest[i - 1] == *n);
                        }
                    }
                    r
                }
            },
        }
    }
}

impl<T: PartialEq> crate::lru::Cache<T> for Linked<T> {
    closed spec fn contents(&self) -> Seq<T> {
        Node::opt_seq(self.head)
    }

    closed spec fn inv(&self) -> bool {
        self.wf()
    }

    fn new() -> (r: Self) {
        Linked::new()
    }

    fn contains(&mut self, n: &T) -> (r: bool) {
        Node::chain_contains(&self.head, n)
    }

    fn remove(&mut self, i: usize) -> (r: Option<T>) {
        Linked::remove(self, i)
    }

    fn insert(&mut self, i: usize, n: T) {
        Linked::insert(self, i, n);
    }

    fn pop(&mut self) -> (r: Option<T>) {
        Linked::pop(self)
    }

    fn index(&self, i: usize) -> (r: Option<&T>) {
        Linked::index(self, i)
    }
}

impl<T> crate::queue::QueueCache<T> for Linked<T> {
    closed spec fn contents(&self) -> Seq<T> {
        Node::opt_seq(self.head)
    }

    closed spec fn inv(&self) -> bool {
        self.wf()
    }

    fn new() -> (r: Self) {
        Linked::new()
    }

    fn enqueue(&mut self, n: T) {
        Linked::push(self, n);
    }

    fn dequeue(&mut self) -> (r: Option<T>) {
        let r = Linked::remove(self, 0);
        proof {
            if old(self).contents().len() > 0 {
                assert(old(self).contents().remove(0) =~= old(self).contents().drop_first());
            }
        }
        r
    }
}

/// Reversing a sequence twice gives the sequence back: reversing a list
/// and reversing it again restores the original list.
pub proof fn lemma_reverse_reverse<T>(s: Seq<T>)
    ensures
        s.reverse().reverse() == s,
{
    assert(s.reverse().reverse() =~= s);
}

} // verus!
