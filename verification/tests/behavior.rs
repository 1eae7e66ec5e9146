use std::collections::HashMap;

use algods::linked::Linked;
use algods::lru::{Cache, List, Lru};
use algods::queue::{ArrayQueue, Queue};
use algods::recursion;
use algods::sort;
use algods::stack;
use algods::stack::Stack;

#[test]
fn lru() {
    let mut lru: Lru<List<i32>, i32> = Lru::new(5);
    lru.lookup(0);
    let v1 = vec![0];
    let v2: Vec<i32> = lru.cache().clone().to_vec();
    assert_eq!(v1, v2);
    lru.lookup(1);
    let v1 = vec![1, 0];
    let v2: Vec<i32> = lru.cache().clone().to_vec();
    assert_eq!(v1, v2);
    lru.lookup(2);
    let v1 = vec![2, 1, 0];
    let v2: Vec<i32> = lru.cache().clone().to_vec();
    assert_eq!(v1, v2);
    lru.lookup(3);
    let v1 = vec![3, 2, 1, 0];
    let v2: Vec<i32> = lru.cache().clone().to_vec();
    assert_eq!(v1, v2);
    lru.lookup(4);
    let v1 = vec![4, 3, 2, 1, 0];
    let v2: Vec<i32> = lru.cache().clone().to_vec();
    assert_eq!(v1, v2);
    lru.lookup(2);
    let v1 = vec![2, 4, 3, 1, 0];
    let v2: Vec<i32> = lru.cache().clone().to_vec();
    assert_eq!(v1, v2);
    let mut lru: Lru<Linked<i32>, i32> = Lru::new(5);
    lru.lookup(0);
    let v1 = vec![0];
    let v2: Vec<i32> = lru.cache().clone().to_vec();
    println!("{:?}", v2);
    assert_eq!(v1, v2);
    lru.lookup(1);
    let v1 = vec![1, 0];
    let v2: Vec<i32> = lru.cache().clone().to_vec();
    assert_eq!(v1, v2);
    lru.lookup(2);
    let v1 = vec![2, 1, 0];
    let v2: Vec<i32> = lru.cache().clone().to_vec();
    assert_eq!(v1, v2);
    lru.lookup(3);
    let v1 = vec![3, 2, 1, 0];
    let v2: Vec<i32> = lru.cache().clone().to_vec();
    assert_eq!(v1, v2);
    lru.lookup(4);
    let v1 = vec![4, 3, 2, 1, 0];
    let v2: Vec<i32> = lru.cache().clone().to_vec();
    assert_eq!(v1, v2);
    lru.lookup(2);
    let v1 = vec![2, 4, 3, 1, 0];
    let v2: Vec<i32> = lru.cache().clone().to_vec();
    assert_eq!(v1, v2);
}

#[test]
fn linked() {
    let mut v: Linked<i32> = Linked::new();
    v.push(0);
    v.push(1);
    v.push(2);
    v.push(3);
    assert_eq!(Some(&0), v.index(0));
    assert_eq!(Some(&1), v.index(1));
    assert_eq!(Some(&2), v.index(2));
    assert_eq!(Some(&3), v.index(3));
    assert_eq!(None, v.index(4));
    assert_eq!(Some(3), v.pop());
    assert_eq!(Some(2), v.pop());
    assert_eq!(Some(1), v.pop());
    assert_eq!(Some(0), v.pop());
    v.push(0);
    v.push(1);
    v.push(2);
    v.push(3);
    assert_eq!(Some(0), v.remove(0));
    assert_eq!(Some(1), v.remove(0));
    assert_eq!(Some(2), v.remove(0));
    assert_eq!(Some(3), v.remove(0));
    let v = Linked::from_vec(vec![0, 1, 2, 3, 4, 5]);
    let v: Vec<_> = v.to_vec();
    println!("{:?}", v);
    let mut v = Linked::from_vec(vec![0, 1, 2, 3, 4, 5]);
    let len = v.len();
    assert_eq!(Some(4), v.remove(len - 2));
    let v = Linked::from_vec(vec![1, 2, 3, 4, 5]);
    assert_eq!(Some(&3), v.index(v.len() / 2));
    let v1 = Linked::from_vec(vec![0, 1, 1, 3, 3, 5, 7, 9]);
    let v2 = Linked::from_vec(vec![1, 2, 2, 4, 4, 6, 8, 10]);
    let l = Linked::merge_order(v1, v2).unwrap();
    let v3: Vec<_> = l.to_vec();
    assert_eq!(vec![0, 1, 1, 1, 2, 2, 3, 3, 4, 4, 5, 6, 7, 8, 9, 10], v3);
    let mut v = Linked::from_vec(vec![0]);
    v.insert(0, 1);
    v.insert(1, 3);
    let mut v = Linked::from_vec(vec![1, 2, 3, 4, 5]);
    v.reverse();
    let v1: Vec<_> = v.to_vec();
    let v2 = vec![5, 4, 3, 2, 1];
    assert_eq!(v1, v2);
    let mut v = Linked::from_vec(vec![1, 2, 3, 4, 5]);
    println!("{}", v.contains(&0));
    println!("{}", v.contains(&1));
    assert_eq!(true, v.contains(&1));
    assert_eq!(false, v.contains(&0));
}

#[test]
fn stack() {
    let mut s: Stack<i32> = stack::Stack::new(5);
    s.push(1);
    s.push(2);
    s.push(3);
    s.push(4);
    s.push(5);
    assert_eq!(5, s.len);
    assert_eq!(5, s.count);
    assert_eq!(Some(5), s.pop());
    assert_eq!(Some(4), s.pop());
    assert_eq!(Some(3), s.pop());
    assert_eq!(Some(2), s.pop());
    assert_eq!(Some(1), s.pop());
    assert_eq!(5, s.len);
    assert_eq!(0, s.count);
    let mut b = stack::Browser::new();
    b.browse(1);
    b.browse(2);
    b.browse(3);
    b.browse(4);
    b.browse(5);
    assert_eq!(Some(4), b.backward());
    assert_eq!(Some(5), b.forward());
    assert_eq!(Some(4), b.backward());
    assert_eq!(Some(3), b.backward());
    assert_eq!(Some(2), b.backward());
    assert_eq!(Some(3), b.forward());
    assert_eq!(Some(4), b.forward());
    let s = "sdf{123[xcv]zxv(fds)[11{22}3]4}55";
    assert_eq!(true, stack::brackets_match(s));
    let s = "[{()}([])]";
    assert_eq!(true, stack::brackets_match(s));
    let s = "{sdf[xv}(vxc)zxc]2131";
    assert_eq!(false, stack::brackets_match(s));
    let s = "[({)]";
    assert_eq!(false, stack::brackets_match(s));
    let s = "3 + 5 * 8 - 6";
    assert_eq!(Some(3 + 5 * 8 - 6), stack::calculate(s));
    let s = "9 / 5 + 3 - 1 + 3 * 2 - 1";
    assert_eq!(Some(9 / 5 + 3 - 1 + 3 * 2 - 1), stack::calculate(s))
}

#[test]
fn queue() {
    let mut v: Queue<List<i32>, i32> = Queue::new(3);
    v.enqueue(1);
    v.enqueue(2);
    v.enqueue(3);
    assert_eq!(false, v.enqueue(4));
    assert_eq!(v.dequeue(), Some(1));
    assert_eq!(v.dequeue(), Some(2));
    assert_eq!(v.dequeue(), Some(3));
    assert_eq!(v.dequeue(), None);
    let mut v: Queue<Linked<i32>, i32> = Queue::new(3);
    v.enqueue(1);
    v.enqueue(2);
    v.enqueue(3);
    assert_eq!(false, v.enqueue(4));
    assert_eq!(v.dequeue(), Some(1));
    assert_eq!(v.dequeue(), Some(2));
    assert_eq!(v.dequeue(), Some(3));
    assert_eq!(v.dequeue(), None);
    let mut v: ArrayQueue<i32> = ArrayQueue::new();
    v.enqueue(1);
    v.enqueue(2);
    v.enqueue(3);
    v.enqueue(4);
    v.enqueue(5);
    v.enqueue(6);
    v.enqueue(7);
    v.enqueue(8);
    v.enqueue(9);
    assert_eq!(false, v.enqueue(10));
    assert_eq!(v.dequeue(), Some(1));
    assert_eq!(v.dequeue(), Some(2));
    assert_eq!(v.dequeue(), Some(3));
    assert_eq!(v.dequeue(), Some(4));
    assert_eq!(v.dequeue(), Some(5));
    assert_eq!(v.dequeue(), Some(6));
    assert_eq!(v.dequeue(), Some(7));
    assert_eq!(v.dequeue(), Some(8));
    assert_eq!(v.dequeue(), Some(9));
    assert_eq!(v.dequeue(), None);
}

#[test]
fn recursion() {
    assert_eq!(5, recursion::f(5));
    assert_eq!(5, recursion::find_seat(5));
    assert_eq!(recursion::climbing_stairs_v1(13), 377);
    let mut h: HashMap<u32, u32> = HashMap::new();
    assert_eq!(recursion::climbing_stairs_v2(13, &mut h), 377);
    assert_eq!(recursion::climbing_stairs_v3(13), 377);
}

#[test]
fn sort() {
    let mut v = vec![2, 4, 6, 2, 1, 4, 7, 2, 9, 1];
    sort::bubble(&mut v);
    assert_eq!(vec![1, 1, 2, 2, 2, 4, 4, 6, 7, 9], v);
    let mut v = vec![4, 5, 6, 1, 2, 3];
    sort::bubble(&mut v);
    assert_eq!(vec![1, 2, 3, 4, 5, 6], v);
    let mut v = vec![4, 5, 6, 1, 2, 3];
    sort::selection(&mut v);
    assert_eq!(vec![1, 2, 3, 4, 5, 6], v);
}
