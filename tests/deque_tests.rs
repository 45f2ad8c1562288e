use std::rc::Rc;

use collections::deque::Deque;

fn to_vec(d: &Deque<i32>) -> Vec<i32> {
    let mut out = Vec::new();
    let mut it = d.iter();
    while let Some(v) = it.next() {
        out.push(*v);
    }
    out
}

#[test]
fn test_deque_push_pop() {
    let deque: Deque<i32> = Deque::new();
    let deque = deque.push_front(1).push_back(2).push_front(0).push_back(3);
    assert_eq!(deque.length(), 4);

    let (value, deque) = deque.pop_front().unwrap();
    assert_eq!(*value, 0);
    let (value, deque) = deque.pop_back().unwrap();
    assert_eq!(*value, 3);
    let (value, deque) = deque.pop_front().unwrap();
    assert_eq!(*value, 1);
    let (value, deque) = deque.pop_back().unwrap();
    assert_eq!(*value, 2);

    assert_eq!(deque.length(), 0);
    assert!(deque.pop_front().is_none());
    assert!(deque.pop_back().is_none());
}

#[test]
fn test_deque_iter() {
    let deque: Deque<String> = Deque::new();
    let deque = deque
        .push_front("World".to_string())
        .push_front("Hello".to_string());
    let mut iter = deque.iter();
    assert_eq!(iter.next(), Some(Rc::new("Hello".to_string())));
    assert_eq!(iter.next(), Some(Rc::new("World".to_string())));
    assert_eq!(iter.next(), None);
}

#[test]
fn mixed_pushes_give_logical_order() {
    let d = Deque::new().push_front(1).push_back(2).push_front(0).push_back(3);
    assert_eq!(to_vec(&d), vec![0, 1, 2, 3]);
    assert_eq!(to_vec(&d), to_vec(&d));
}

#[test]
fn pop_back_after_front_pushes() {
    let d = Deque::new().push_front(1).push_front(2).push_front(3);
    assert_eq!(to_vec(&d), vec![3, 2, 1]);
    let (v, d) = d.pop_back().unwrap();
    assert_eq!(*v, 1);
    let (v, d) = d.pop_back().unwrap();
    assert_eq!(*v, 2);
    let (v, d) = d.pop_back().unwrap();
    assert_eq!(*v, 3);
    assert!(d.is_empty());
}

#[test]
fn pop_front_after_back_pushes() {
    let mut d = Deque::new();
    for i in 0..10 {
        d = d.push_back(i);
    }
    for i in 0..10 {
        let (v, rest) = d.pop_front().unwrap();
        assert_eq!(*v, i);
        d = rest;
    }
    assert!(d.pop_front().is_none());
}

#[test]
fn old_versions_are_unchanged() {
    let d1 = Deque::new().push_back(1).push_back(2);
    let d2 = d1.push_front(0);
    let (_, d3) = d1.pop_back().unwrap();
    assert_eq!(to_vec(&d1), vec![1, 2]);
    assert_eq!(to_vec(&d2), vec![0, 1, 2]);
    assert_eq!(to_vec(&d3), vec![1]);
    assert_eq!(d1.length(), 2);
}
