use algods::binary_search::{
    binary_search, binary_search_v1, binary_search_v2, binary_search_v3, binary_search_v4,
};
use algods::binary_tree::{BinarySearchTree, BinaryTree};
use algods::hash_table::HashTable;
use algods::heap::Heap;
use algods::linked::Linked;
use algods::lru::{Cache, List, Lru};
use algods::sort;
use algods::stack;
use algods::stack::Stack;

#[test]
fn lru_eviction() {
    // At capacity, a miss drops the least recently used element.
    let mut lru: Lru<List<i32>, i32> = Lru::new(2);
    lru.lookup(1);
    lru.lookup(2);
    lru.lookup(3);
    let v: Vec<i32> = lru.cache().clone().to_vec();
    assert_eq!(vec![3, 2], v);
    // The evicted element misses again and evicts in turn.
    lru.lookup(1);
    let v: Vec<i32> = lru.cache().clone().to_vec();
    assert_eq!(vec![1, 3], v);
}

#[test]
fn lru_capacity_bound() {
    // However many lookups are made, the cache never outgrows its
    // capacity, and the element just looked up sits at position 0.
    let mut lru: Lru<Linked<i32>, i32> = Lru::new(3);
    for i in 0..20 {
        let x = i % 7;
        lru.lookup(x);
        let v: Vec<i32> = lru.cache().clone().to_vec();
        assert!(v.len() <= 3);
        assert_eq!(v[0], x);
    }
}

#[test]
fn lru_capacity_one() {
    let mut lru: Lru<List<i32>, i32> = Lru::new(1);
    lru.lookup(7);
    lru.lookup(8);
    let v: Vec<i32> = lru.cache().clone().to_vec();
    assert_eq!(vec![8], v);
}

#[test]
fn linked_round_trip() {
    // Converting a vector to the linked form and back is the identity.
    let v = vec![3, 1, 4, 1, 5, 9, 2, 6];
    let l = Linked::from_vec(v.clone());
    assert_eq!(v, l.to_vec());
    let l: Linked<i32> = Linked::from_vec(vec![]);
    assert_eq!(Vec::<i32>::new(), l.to_vec());
}

#[test]
fn linked_reverse_twice() {
    // Reversing twice restores the original list.
    let v = vec![1, 2, 2, 7, 5];
    let mut l = Linked::from_vec(v.clone());
    l.reverse();
    l.reverse();
    assert_eq!(v, l.to_vec());
}

#[test]
fn linked_edges() {
    // Pop and remove fail on an empty list instead of panicking.
    let mut l: Linked<i32> = Linked::new();
    assert_eq!(None, l.pop());
    assert_eq!(None, l.remove(0));
    assert_eq!(None, l.index(0));
    // Insert at the length appends; past it, nothing happens.
    let mut l = Linked::from_vec(vec![1, 2]);
    assert_eq!(Some(()), l.insert(2, 3));
    assert_eq!(None, l.insert(9, 4));
    assert_eq!(vec![1, 2, 3], l.to_vec());
    // Merging two empty lists yields nothing.
    let a: Linked<i32> = Linked::new();
    let b: Linked<i32> = Linked::new();
    assert!(Linked::merge_order(a, b).is_none());
}

#[test]
fn stack_capacity() {
    // A full stack rejects pushes and keeps its contents.
    let mut s: Stack<i32> = Stack::new(2);
    assert_eq!(Some(()), s.push(1));
    assert_eq!(Some(()), s.push(2));
    assert_eq!(None, s.push(3));
    assert_eq!(Some(2), s.pop());
    assert_eq!(Some(1), s.pop());
    assert_eq!(None, s.pop());
}

#[test]
fn brackets_edges() {
    assert_eq!(true, stack::brackets_match(""));
    // A closing bracket with nothing open is ignored, as the scan
    // only checks brackets it actually popped.
    assert_eq!(true, stack::brackets_match(")"));
    assert_eq!(false, stack::brackets_match("("));
    assert_eq!(true, stack::brackets_match("()"));
}

#[test]
fn calculate_cases() {
    assert_eq!(Some(7), stack::calculate("7"));
    assert_eq!(Some(9), stack::calculate("1 + 2 * 4"));
    assert_eq!(Some(1), stack::calculate("9 / 5"));
    assert_eq!(None, stack::calculate(""));
}

#[test]
fn sorts_agree() {
    let base = vec![5, 3, 8, 3, 1, 9, 0, 3, 7, 2];
    let expected = vec![0, 1, 2, 3, 3, 3, 5, 7, 8, 9];
    let mut v = base.clone();
    sort::insert(&mut v);
    assert_eq!(expected, v);
    let mut v = base.clone();
    sort::merge_sort(&mut v);
    assert_eq!(expected, v);
    let mut v = base.clone();
    sort::quick_sort(&mut v);
    assert_eq!(expected, v);
    let mut v: Vec<i32> = vec![];
    sort::merge_sort(&mut v);
    assert_eq!(Vec::<i32>::new(), v);
}

#[test]
fn sort_merge_halves() {
    let mut v = vec![1, 4, 9, 2, 3, 8];
    sort::merge(&mut v, 3);
    assert_eq!(vec![1, 2, 3, 4, 8, 9], v);
}

#[test]
fn sort_partition() {
    let mut v = vec![9, 1, 8, 2, 5];
    let mut p = v.len() - 1;
    sort::partition(&mut v, &mut p);
    // The pivot 5 ends between the smaller and the larger elements.
    assert_eq!(5, v[p]);
    for k in 0..p {
        assert!(v[k] < 5);
    }
    for k in p + 1..v.len() {
        assert!(v[k] >= 5);
    }
}

#[test]
fn sort_count() {
    let r = sort::count(vec![2, 5, 3, 0, 2, 3, 0, 3]);
    assert_eq!(vec![0, 0, 2, 2, 3, 3, 3, 5], r);
    assert_eq!(Vec::<i32>::new(), sort::count(vec![]));
}

#[test]
fn sort_bucket() {
    let r = sort::bucket(vec![15, 3, 101, -2, 99, 15, 0, 100]);
    // Values outside 0..=100 are dropped; the rest come out sorted.
    assert_eq!(vec![0, 3, 15, 15, 99, 100], r);
}

#[test]
fn binary_search_variants() {
    let v = vec![1, 3, 3, 5, 8, 13];
    assert_eq!(Some(5), binary_search(&v, 5));
    assert_eq!(None, binary_search(&v, 4));
    assert_eq!(Some(3), binary_search_v1(&v, 3));
    assert_eq!(Some(3), binary_search_v2(&v, 3));
    assert_eq!(None, binary_search_v1(&v, 14));
    assert_eq!(None, binary_search_v2(&v, 0));
    // First element at least the target.
    assert_eq!(Some(5), binary_search_v3(&v, 4));
    assert_eq!(Some(1), binary_search_v3(&v, 0));
    assert_eq!(None, binary_search_v3(&v, 14));
    // Last element at most the target.
    assert_eq!(Some(3), binary_search_v4(&v, 4));
    assert_eq!(Some(13), binary_search_v4(&v, 99));
    assert_eq!(None, binary_search_v4(&v, 0));
}

#[test]
fn heap_bounds() {
    let mut h: Heap<i32> = Heap::new(3);
    assert_eq!(Some(()), h.insert(5));
    assert_eq!(Some(()), h.insert(9));
    assert_eq!(Some(()), h.insert(1));
    assert_eq!(None, h.insert(7));
    assert_eq!(Some(()), h.remove());
    assert_eq!(Some(()), h.remove());
    assert_eq!(Some(()), h.remove());
    assert_eq!(None, h.remove());
}

#[test]
fn hash_table_lookup() {
    let mut t: HashTable<i32, i32> = HashTable::new();
    t.insert(1, 10);
    t.insert(2, 20);
    t.insert(1, 10);
    assert_eq!(Some(&10), t.get(1));
    assert_eq!(Some(&20), t.get(2));
    assert_eq!(None, t.get(3));
    // The first stored value for a key wins.
    t.insert(1, 11);
    assert_eq!(Some(&10), t.get(1));
}

#[test]
fn binary_tree_orders() {
    let mut root = BinaryTree::new(2);
    root.left = Some(Box::new(BinaryTree::new(1)));
    root.right = Some(Box::new(BinaryTree::new(3)));
    assert_eq!(vec![2, 1, 3], root.pre_order());
    assert_eq!(vec![1, 2, 3], root.in_order());
    assert_eq!(vec![1, 3, 2], root.post_order());
    // A marked childless node is skipped by every traversal.
    let mut t = BinaryTree::new(7);
    t.root = Some(());
    assert_eq!(Vec::<i32>::new(), t.pre_order());
    assert_eq!(Vec::<i32>::new(), t.in_order());
    assert_eq!(Vec::<i32>::new(), t.post_order());
}

#[test]
fn search_tree() {
    let mut t: BinarySearchTree<i32> = BinarySearchTree::new();
    assert_eq!(None, t.search(4));
    t.push(4);
    t.push(2);
    t.push(6);
    t.push(4);
    assert_eq!(Some(&4), t.search(4));
    assert_eq!(Some(&2), t.search(2));
    assert_eq!(Some(&6), t.search(6));
    assert_eq!(None, t.search(5));
    // Deleting removes one occurrence at a time.
    t.delete(4);
    assert_eq!(Some(&4), t.search(4));
    t.delete(4);
    assert_eq!(None, t.search(4));
    assert_eq!(Some(&2), t.search(2));
    assert_eq!(Some(&6), t.search(6));
    // Deleting an absent element changes nothing.
    t.delete(9);
    assert_eq!(Some(&6), t.search(6));
    t.delete(2);
    t.delete(6);
    assert_eq!(None, t.search(2));
    assert_eq!(None, t.search(6));
}

#[test]
fn list_backend_capability() {
    // The array backend honours the same capability semantics as the
    // linked one.
    let mut l: List<i32> = Cache::new();
    l.insert(0, 1);
    l.insert(1, 3);
    l.insert(1, 2);
    assert_eq!(Some(&1), l.index(0));
    assert_eq!(Some(&2), l.index(1));
    assert_eq!(Some(&3), l.index(2));
    assert_eq!(None, l.index(3));
    assert!(l.contains(&2));
    assert!(!l.contains(&9));
    assert_eq!(Some(2), l.remove(1));
    assert_eq!(None, l.remove(5));
    assert_eq!(Some(3), l.pop());
    assert_eq!(Some(1), l.pop());
    assert_eq!(None, l.pop());
}
