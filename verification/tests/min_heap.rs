#![allow(non_snake_case)]
#![allow(unused_mut)]

use prime_sieve::min_heap::{MinHeap, RevOrd};
use std::cmp::Ordering;

#[test]
fn RevOrd_Ord() {
    assert_eq!(RevOrd(1).cmp(&RevOrd(1)), Ordering::Equal);
    assert_eq!(RevOrd(1).cmp(&RevOrd(0)), Ordering::Less);
    assert_eq!(RevOrd(1).cmp(&RevOrd(2)), Ordering::Greater);
}

#[test]
fn RevOrd_PartialOrd() {
    assert_eq!(RevOrd(1).partial_cmp(&RevOrd(1)), Some(Ordering::Equal));
    assert_eq!(RevOrd(1).partial_cmp(&RevOrd(0)), Some(Ordering::Less));
    assert_eq!(RevOrd(1).partial_cmp(&RevOrd(2)), Some(Ordering::Greater));
}

#[test]
fn RevOrd_PartialEq() {
    assert_eq!(RevOrd(1) == RevOrd(1), true);
    assert_eq!(RevOrd(1) == RevOrd(0), false);
}

#[test]
fn MinHeap_Constructors() {
    let mut m: MinHeap<usize> = MinHeap::new();
    let mut n: MinHeap<usize> = MinHeap::with_capacity(20);
    assert_eq!(m.len(), n.len());
}

#[test]
fn MinHeap_test1() {
    let mut m = MinHeap::new();
    m.push(5);
    m.push(4);
    m.push(3);

    assert_eq!(m.pop().unwrap(), 3);
    assert_eq!(m.pop().unwrap(), 4);
    assert_eq!(m.pop().unwrap(), 5);
}

#[test]
fn rev_ord_unwrap_gives_the_value_back() {
    assert_eq!(RevOrd(17).unwrap(), 17);
    assert_eq!(RevOrd("seven").unwrap(), "seven");
}

#[test]
fn rev_ord_orders_backwards_through_operators() {
    assert!(RevOrd(1) < RevOrd(0));
    assert!(RevOrd(1) > RevOrd(2));
    assert!(RevOrd(1) <= RevOrd(1));
    assert!(RevOrd(3) != RevOrd(4));
}

#[test]
fn pop_on_an_empty_queue_is_none() {
    let mut m: MinHeap<u32> = MinHeap::new();
    assert_eq!(m.pop(), None);
    assert_eq!(m.peek(), None);
    assert_eq!(m.len(), 0);
    assert!(m.is_empty());
    m.push(1);
    assert_eq!(m.pop(), Some(1));
    assert_eq!(m.pop(), None);
    assert!(m.is_empty());
}

#[test]
fn pops_ascend_and_keep_repeated_items() {
    let mut m: MinHeap<u32> = MinHeap::new();
    for x in [7, 3, 9, 3, 1, 8, 1, 0, 12, 5] {
        m.push(x);
    }
    assert_eq!(m.len(), 10);
    let mut out = Vec::new();
    while let Some(x) = m.pop() {
        out.push(x);
    }
    assert_eq!(out, vec![0, 1, 1, 3, 3, 5, 7, 8, 9, 12]);
    assert!(m.is_empty());
}

#[test]
fn pops_ascend_on_a_long_scrambled_run() {
    let mut m: MinHeap<u64> = MinHeap::new();
    let mut x: u64 = 12345;
    let mut pushed = Vec::new();
    for _ in 0..500 {
        x = x.wrapping_mul(6364136223846793005).wrapping_add(1442695040888963407);
        let item = (x >> 33) % 1000;
        pushed.push(item);
        m.push(item);
    }
    pushed.sort();
    let mut out = Vec::new();
    while let Some(item) = m.pop() {
        out.push(item);
    }
    assert_eq!(out, pushed);
}

#[test]
fn interleaved_pushes_and_pops_always_give_the_least() {
    let mut m: MinHeap<i32> = MinHeap::new();
    m.push(10);
    m.push(-4);
    assert_eq!(m.pop(), Some(-4));
    m.push(3);
    m.push(11);
    assert_eq!(m.pop(), Some(3));
    m.push(-7);
    assert_eq!(m.pop(), Some(-7));
    assert_eq!(m.pop(), Some(10));
    assert_eq!(m.pop(), Some(11));
    assert_eq!(m.pop(), None);
}

#[test]
fn peek_shows_the_least_and_changes_nothing() {
    let mut m: MinHeap<u32> = MinHeap::new();
    m.push(6);
    m.push(2);
    m.push(4);
    assert_eq!(m.peek(), Some(&2));
    assert_eq!(m.peek(), Some(&2));
    assert_eq!(m.peek(), Some(&2));
    assert_eq!(m.len(), 3);
    assert_eq!(m.pop(), Some(2));
    assert_eq!(m.peek(), Some(&4));
}

#[test]
fn push_of_a_new_least_item_is_what_peek_shows() {
    let mut m: MinHeap<u32> = MinHeap::new();
    m.push(9);
    assert_eq!(m.peek(), Some(&9));
    m.push(5);
    assert_eq!(m.peek(), Some(&5));
    m.push(7);
    assert_eq!(m.peek(), Some(&5));
    m.push(5);
    assert_eq!(m.peek(), Some(&5));
    m.push(0);
    assert_eq!(m.peek(), Some(&0));
}

#[test]
fn append_moves_every_item_over() {
    let mut a: MinHeap<u32> = MinHeap::new();
    let mut b: MinHeap<u32> = MinHeap::new();
    a.push(5);
    a.push(1);
    b.push(4);
    b.push(2);
    b.push(3);
    b.push(0);
    a.append(&mut b);
    assert_eq!(a.len(), 6);
    assert_eq!(b.len(), 0);
    assert!(b.is_empty());
    assert_eq!(b.pop(), None);
    assert_eq!(a.peek(), Some(&0));
    let mut out = Vec::new();
    while let Some(x) = a.pop() {
        out.push(x);
    }
    assert_eq!(out, vec![0, 1, 2, 3, 4, 5]);
}

#[test]
fn append_of_and_to_an_empty_queue() {
    let mut a: MinHeap<u32> = MinHeap::new();
    let mut b: MinHeap<u32> = MinHeap::new();
    a.append(&mut b);
    assert!(a.is_empty());
    b.push(8);
    a.append(&mut b);
    assert_eq!(a.len(), 1);
    assert!(b.is_empty());
    a.append(&mut b);
    assert_eq!(a.pop(), Some(8));
}

#[test]
fn a_queue_made_with_room_pops_like_one_made_without() {
    let mut plain: MinHeap<u32> = MinHeap::new();
    let mut roomy: MinHeap<u32> = MinHeap::with_capacity(64);
    for x in [31, 4, 15, 9, 26, 5, 35, 8, 9, 7, 9, 3] {
        plain.push(x);
        roomy.push(x);
    }
    assert_eq!(plain.len(), roomy.len());
    loop {
        let a = plain.pop();
        let b = roomy.pop();
        assert_eq!(a, b);
        if a.is_none() {
            break;
        }
    }
}

#[test]
fn clear_leaves_the_queue_empty() {
    let mut m: MinHeap<u32> = MinHeap::new();
    m.push(2);
    m.push(1);
    m.clear();
    assert!(m.is_empty());
    assert_eq!(m.len(), 0);
    assert_eq!(m.pop(), None);
    m.push(3);
    assert_eq!(m.pop(), Some(3));
}

#[test]
fn capacity_is_never_below_the_length() {
    let mut m: MinHeap<u32> = MinHeap::with_capacity(20);
    assert!(m.capacity() >= 20);
    for x in 0..100 {
        m.push(x);
        assert!(m.capacity() >= m.len());
    }
}

#[test]
fn making_room_keeps_the_items() {
    let mut m: MinHeap<u32> = MinHeap::new();
    m.push(3);
    m.push(1);
    m.push(2);
    m.reserve(100);
    assert!(m.capacity() >= 103);
    assert_eq!(m.len(), 3);
    assert_eq!(m.peek(), Some(&1));
    m.reserve_exact(200);
    assert!(m.capacity() >= 203);
    assert_eq!(m.len(), 3);
    assert_eq!(m.peek(), Some(&1));
    m.shrink_to_fit();
    assert!(m.capacity() >= 3);
    assert!(m.capacity() < 203);
    assert_eq!(m.len(), 3);
    assert_eq!(m.pop(), Some(1));
    assert_eq!(m.pop(), Some(2));
    assert_eq!(m.pop(), Some(3));
}
