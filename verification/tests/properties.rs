use core::cmp::Ordering;
use rust_utils::xor_linked_list::SplitOffError;
use rust_utils::XorLinkedList;

fn from_slice(v: &[i32]) -> XorLinkedList<i32> {
    let mut list = XorLinkedList::new();
    for &x in v {
        list.push_back(x);
    }
    list
}

fn to_values(list: &XorLinkedList<i32>) -> Vec<i32> {
    let mut out = Vec::new();
    let mut it = list.iter();
    while let Some(x) = it.next() {
        out.push(*x);
    }
    out
}

#[test]
fn test_len_tracks_mixed_ends() {
    let mut l = XorLinkedList::new();
    assert_eq!(l.len(), 0);
    assert!(l.is_empty());
    l.push_front(2);
    l.push_back(3);
    l.push_front(1);
    assert_eq!(l.len(), 3);
    assert_eq!(l.front(), Some(&1));
    assert_eq!(l.back(), Some(&3));
    assert_eq!(l.pop_front(), Some(1));
    assert_eq!(l.front(), Some(&2));
    assert_eq!(l.pop_back(), Some(3));
    assert_eq!(l.back(), Some(&2));
    assert_eq!(l.len(), 1);
}

#[test]
fn test_collect_iter_rebuilds_equal() {
    let l = from_slice(&[4, 7, 1, 9]);
    let mut rebuilt = XorLinkedList::new();
    let mut it = l.iter();
    while let Some(x) = it.next() {
        rebuilt.push_back(*x);
    }
    assert!(l.eq(&rebuilt));

    // the owning cursor fully drains the container
    let mut own = l.duplicate().into_iter();
    let mut n = 0;
    while let Some(_) = own.next() {
        n += 1;
    }
    assert_eq!(n, 4);
    assert_eq!(own.len(), 0);
    assert_eq!(own.next(), None);
}

#[test]
fn test_append_order_and_emptied() {
    let mut a = from_slice(&[1, 2]);
    let mut b = from_slice(&[3, 4, 5]);
    a.append(&mut b);
    assert_eq!(to_values(&a), vec![1, 2, 3, 4, 5]);
    assert_eq!(b.len(), 0);
    assert_eq!(b.front(), None);
    assert_eq!(b.back(), None);
}

#[test]
fn test_split_then_append_reconstructs() {
    let original = [10, 20, 30, 40, 50];
    for at in 0..original.len() + 1 {
        let mut first = from_slice(&original);
        let mut second = first.split_off(at).unwrap();
        assert_eq!(first.len(), at);
        assert_eq!(second.len(), original.len() - at);
        first.append(&mut second);
        assert_eq!(to_values(&first), original.to_vec());
    }
}

#[test]
fn test_split_off_bounds() {
    let mut l = from_slice(&[1, 2, 3]);
    let tail = l.split_off(3).unwrap();
    assert!(tail.is_empty());
    assert_eq!(to_values(&l), vec![1, 2, 3]);

    let rest = l.split_off(0).unwrap();
    assert!(l.is_empty());
    assert_eq!(to_values(&rest), vec![1, 2, 3]);
}

#[test]
fn test_split_off_out_of_range() {
    let mut l = from_slice(&[1, 2, 3]);
    let r = l.split_off(4);
    assert!(matches!(r, Err(SplitOffError::IndexOutOfRange)));
    assert_eq!(to_values(&l), vec![1, 2, 3]);
}

#[test]
fn test_split_off_example() {
    let mut l = XorLinkedList::new();
    l.push_back(1);
    l.push_back(2);
    l.push_back(3);
    let tail = l.split_off(2).unwrap();
    assert_eq!(to_values(&tail), vec![3]);
    assert_eq!(to_values(&l), vec![1, 2]);
}

#[test]
fn test_pop_push_example() {
    let mut l = XorLinkedList::new();
    assert_eq!(l.pop_front(), None);
    l.push_front(5);
    assert_eq!(l.pop_back(), Some(5));
    assert!(l.is_empty());
}

#[test]
fn test_meet_in_the_middle() {
    let l = from_slice(&[1, 2, 3, 4, 5]);
    let mut it = l.iter();
    let mut yielded = Vec::new();
    loop {
        match it.next() {
            Some(x) => yielded.push(*x),
            None => break,
        }
        match it.next_back() {
            Some(x) => yielded.push(*x),
            None => break,
        }
    }
    // both directions together yield each element exactly once
    assert_eq!(yielded.len(), l.len());
    yielded.sort();
    assert_eq!(yielded, vec![1, 2, 3, 4, 5]);
    assert_eq!(it.next(), None);
    assert_eq!(it.next_back(), None);
}

#[test]
fn test_equal_from_different_histories() {
    let a = from_slice(&[1, 2, 3, 4]);

    let mut b = XorLinkedList::new();
    b.push_front(2);
    b.push_front(1);
    b.push_back(3);
    b.push_back(9);
    assert_eq!(b.pop_back(), Some(9));
    b.push_back(4);

    let mut c = from_slice(&[1, 2, 3, 4]);
    let mut tail = c.split_off(2).unwrap();
    c.append(&mut tail);

    assert!(a.eq(&b));
    assert!(a.eq(&c));
    assert!(!a.eq(&from_slice(&[1, 2, 3])));
}

#[test]
fn test_iter_mut_updates_elements() {
    let mut l = from_slice(&[0, 1, 2]);
    let mut it = l.iter_mut();
    while let Some(element) = it.next(&mut l) {
        *element += 10;
    }
    assert_eq!(to_values(&l), vec![10, 11, 12]);

    let mut back = l.iter_mut();
    if let Some(element) = back.next_back(&mut l) {
        *element = 99;
    }
    assert_eq!(to_values(&l), vec![10, 11, 99]);
}

#[test]
fn test_clear_and_extend() {
    let mut l = from_slice(&[1, 2, 3]);
    l.clear();
    assert!(l.is_empty());
    assert_eq!(l.pop_back(), None);
    l.extend(vec![7, 8]);
    assert_eq!(to_values(&l), vec![7, 8]);
    l.extend(vec![9]);
    assert_eq!(to_values(&l), vec![7, 8, 9]);
}

#[test]
fn test_duplicate_is_independent() {
    let mut l = from_slice(&[1, 2, 3]);
    let d = l.duplicate();
    l.pop_front();
    assert_eq!(to_values(&d), vec![1, 2, 3]);
    assert_eq!(to_values(&l), vec![2, 3]);
}

#[test]
fn test_into_iter_double_ended() {
    let l = from_slice(&[1, 2, 3, 4]);
    let mut it = l.into_iter();
    assert_eq!(it.next(), Some(1));
    assert_eq!(it.next_back(), Some(4));
    assert_eq!(it.next(), Some(2));
    assert_eq!(it.next_back(), Some(3));
    assert_eq!(it.next(), None);
    assert_eq!(it.next_back(), None);
}

#[test]
fn test_lex_compare() {
    let a = from_slice(&[1, 2, 3]);
    let b = from_slice(&[1, 2, 4]);
    let c = from_slice(&[1, 2]);
    assert_eq!(a.lex_cmp(&b), Some(Ordering::Less));
    assert_eq!(b.lex_cmp(&a), Some(Ordering::Greater));
    assert_eq!(a.lex_cmp(&a), Some(Ordering::Equal));
    assert_eq!(c.lex_cmp(&a), Some(Ordering::Less));
    assert_eq!(a.lex_cmp(&c), Some(Ordering::Greater));
}
