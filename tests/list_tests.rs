use collections::list::List;

#[test]
fn test_iter() {
    let l = List::new()
        .push_front(4)
        .push_front(3)
        .push_front(2)
        .push_front(1);
    let v = vec![1, 2, 3, 4];
    let mut it = l.iter();
    let mut idx = 0;
    while let Some(val) = it.next() {
        assert_eq!(v[idx], *val);
        idx += 1;
    }
    assert_eq!(idx, v.len());
}

#[test]
fn test_split() {
    let l = List::new()
        .push_front(4)
        .push_front(3)
        .push_front(2)
        .push_front(1);
    let (a, b) = l.split();
    assert_eq!(a.length(), 2);
    assert_eq!(b.length(), 2);
}

#[test]
fn test_list() {
    let empty_list = List::new();
    assert_eq!(empty_list.length(), 0);
    assert!(empty_list.is_empty());
    assert!(empty_list.pop_front().is_none());
    assert!(empty_list.front().is_none());

    let list = empty_list.push_front(123).push_front(987);
    assert_eq!(list.length(), 2);
    assert!(!list.is_empty());
    assert_eq!(list.front(), Some(&987));

    let (popped_element, remaining_list) = list.pop_front().unwrap();
    assert_eq!(*popped_element, 987);
    assert_eq!(remaining_list.length(), 1);
    assert_eq!(remaining_list.front(), Some(&123));
}

#[test]
fn test_list_reverse() {
    let list = List::new().push_front(1).push_front(2);
    let reversed_list = list.reverse();

    let (first_element, list_after_first_pop) = reversed_list.pop_front().unwrap();
    assert_eq!(*first_element, 1);

    let (second_element, _) = list_after_first_pop.pop_front().unwrap();
    assert_eq!(*second_element, 2);
}

fn to_vec(l: &List<i32>) -> Vec<i32> {
    let mut out = Vec::new();
    let mut it = l.iter();
    while let Some(v) = it.next() {
        out.push(*v);
    }
    out
}

fn from_slice(items: &[i32]) -> List<i32> {
    let mut l = List::new();
    for x in items.iter().rev() {
        l = l.push_front(*x);
    }
    l
}

#[test]
fn split_odd_length_keeps_order() {
    let l = from_slice(&[1, 2, 3, 4, 5]);
    let (a, b) = l.split();
    assert_eq!(to_vec(&a), vec![1, 2]);
    assert_eq!(to_vec(&b), vec![3, 4, 5]);
    assert_eq!(to_vec(&l), vec![1, 2, 3, 4, 5]);
}

#[test]
fn split_empty_and_single() {
    let (a, b) = List::<i32>::new().split();
    assert!(a.is_empty() && b.is_empty());
    let (a, b) = from_slice(&[7]).split();
    assert_eq!(to_vec(&a), Vec::<i32>::new());
    assert_eq!(to_vec(&b), vec![7]);
}

#[test]
fn reverse_twice_gives_back_the_list() {
    let l = from_slice(&[3, 1, 4, 1, 5]);
    assert_eq!(to_vec(&l.reverse()), vec![5, 1, 4, 1, 3]);
    assert_eq!(to_vec(&l.reverse().reverse()), to_vec(&l));
    assert_eq!(l.reverse().length(), 5);
}

#[test]
fn length_follows_pushes_and_pops() {
    let l = List::new();
    assert_eq!(l.length(), 0);
    let l2 = l.push_front(1);
    assert_eq!(l2.length(), 1);
    let l3 = l2.push_front(2);
    assert_eq!(l3.length(), 2);
    let (_, l4) = l3.pop_front().unwrap();
    assert_eq!(l4.length(), 1);
    assert_eq!(l.length(), 0);
    assert_eq!(l2.length(), 1);
}

#[test]
fn pop_front_rc_shares_the_element() {
    let l = from_slice(&[8, 9]);
    let (v, rest) = l.pop_front_rc().unwrap();
    assert_eq!(*v, 8);
    assert_eq!(to_vec(&rest), vec![9]);
    assert!(List::<i32>::new().pop_front_rc().is_none());
}

#[test]
fn front_read_twice_is_the_same() {
    let l = from_slice(&[4, 2]);
    assert_eq!(l.front(), l.front());
    assert_eq!(l.front(), Some(&4));
}

#[test]
fn iterators_are_independent() {
    let l = from_slice(&[1, 2, 3]);
    let mut a = l.iter();
    let first = a.next();
    assert_eq!(first.map(|v| *v), Some(1));
    assert_eq!(to_vec(&l), vec![1, 2, 3]);
    assert_eq!(a.next().map(|v| *v), Some(2));
    assert_eq!(a.next().map(|v| *v), Some(3));
    assert!(a.next().is_none());
    assert!(a.next().is_none());
}
