use rand::{thread_rng, RngCore};
use rust_utils::XorLinkedList;

fn list_from<T: Clone>(v: &[T]) -> XorLinkedList<T> {
    let mut list = XorLinkedList::new();
    for x in v {
        list.push_back(x.clone());
    }
    list
}

fn collect_refs<T>(list: &XorLinkedList<T>) -> Vec<&T> {
    let mut out = Vec::new();
    let mut it = list.iter();
    while let Some(x) = it.next() {
        out.push(x);
    }
    out
}

/// Walks the list forwards and backwards and checks that both walks
/// agree with each other and with the stored length.
fn check_links<T: PartialEq>(list: &XorLinkedList<T>) {
    let forward = collect_refs(list);
    let mut backward = Vec::new();
    let mut it = list.iter();
    while let Some(x) = it.next_back() {
        backward.push(x);
    }
    assert_eq!(forward.len(), list.len());
    assert_eq!(backward.len(), list.len());
    for (i, x) in backward.iter().enumerate() {
        assert!(forward[forward.len() - 1 - i] == *x);
    }
}

#[test]
fn test_append() {
    // Empty to empty
    {
        let mut m = XorLinkedList::<i32>::new();
        let mut n = XorLinkedList::new();
        m.append(&mut n);
        check_links(&m);
        assert_eq!(m.len(), 0);
        assert_eq!(n.len(), 0);
    }
    // Non-empty to empty
    {
        let mut m = XorLinkedList::new();
        let mut n = XorLinkedList::new();
        n.push_back(2);
        m.append(&mut n);
        check_links(&m);
        assert_eq!(m.len(), 1);
        assert_eq!(m.pop_back(), Some(2));
        assert_eq!(n.len(), 0);
        check_links(&m);
    }
    // Empty to non-empty
    {
        let mut m = XorLinkedList::new();
        let mut n = XorLinkedList::new();
        m.push_back(2);
        m.append(&mut n);
        check_links(&m);
        assert_eq!(m.len(), 1);
        assert_eq!(m.pop_back(), Some(2));
        check_links(&m);
    }

    // Non-empty to non-empty
    let v = vec![1, 2, 3, 4, 5];
    let u = vec![9, 8, 1, 2, 3, 4, 5];
    let mut m = list_from(&v);
    let mut n = list_from(&u);
    m.append(&mut n);
    check_links(&m);
    let mut sum = v;
    sum.extend_from_slice(&u);
    assert_eq!(sum.len(), m.len());
    for elt in sum {
        assert_eq!(m.pop_front(), Some(elt))
    }
    assert_eq!(n.len(), 0);
    // let's make sure it's working properly, since we
    // did some direct changes to private members
    n.push_back(3);
    assert_eq!(n.len(), 1);
    assert_eq!(n.pop_front(), Some(3));
    check_links(&n);
}

#[test]
fn test_fuzz() {
    for _ in 0..25 {
        fuzz_test(3);
        fuzz_test(16);
        fuzz_test(189);
    }
}

#[test]
fn test_26021() {
    // An earlier split_off bug in a doubly linked list failed to cut
    // the returned part's backward link, so dropping it consumed the
    // first part's nodes as well.
    let mut v1 = XorLinkedList::new();
    v1.push_front(1);
    v1.push_front(1);
    v1.push_front(1);
    v1.push_front(1);
    let _ = v1.split_off(3).unwrap(); // Dropping this now should not cause laundry consumption
    assert_eq!(v1.len(), 3);

    assert_eq!(v1.iter().len(), 3);
    assert_eq!(collect_refs(&v1).len(), 3);
}

#[test]
fn test_split_off() {
    let mut v1 = XorLinkedList::new();
    v1.push_front(1);
    v1.push_front(1);
    v1.push_front(1);
    v1.push_front(1);

    // test all splits
    for ix in 0..1 + v1.len() {
        let mut a = v1.duplicate();
        let mut b = a.split_off(ix).unwrap();
        check_links(&a);
        check_links(&b);
        a.append(&mut b);
        assert!(v1.eq(&a));
    }
}

fn fuzz_test(sz: i32) {
    let mut m: XorLinkedList<_> = XorLinkedList::new();
    let mut v = vec![];
    for i in 0..sz {
        check_links(&m);
        let r: u8 = thread_rng().next_u32() as u8;
        match r % 6 {
            0 => {
                m.pop_back();
                v.pop();
            }
            1 => {
                if !v.is_empty() {
                    m.pop_front();
                    v.remove(0);
                }
            }
            2 | 4 => {
                m.push_front(-i);
                v.insert(0, -i);
            }
            3 | 5 | _ => {
                m.push_back(i);
                v.push(i);
            }
        }
    }

    check_links(&m);

    let mut i = 0;
    let mut it = m.into_iter();
    while let Some(a) = it.next() {
        assert_eq!(a, v[i]);
        i += 1;
    }
    assert_eq!(i, v.len());
}

#[test]
fn test_pop_front() {
    let mut v1 = XorLinkedList::new();
    v1.push_front(1);
    v1.push_front(2);
    v1.push_front(3);
    v1.push_front(4);

    assert_eq!(Some(4), v1.pop_front());
    assert_eq!(Some(3), v1.pop_front());
    assert_eq!(Some(2), v1.pop_front());
    assert_eq!(Some(1), v1.pop_front());
    assert_eq!(None, v1.pop_front());
}

#[test]
fn test_pop_back() {
    let mut v1 = XorLinkedList::new();
    v1.push_back(1);
    v1.push_back(2);
    v1.push_back(3);
    v1.push_back(4);

    assert_eq!(Some(4), v1.pop_back());
    assert_eq!(Some(3), v1.pop_back());
    assert_eq!(Some(2), v1.pop_back());
    assert_eq!(Some(1), v1.pop_back());
    assert_eq!(None, v1.pop_back());
}

#[test]
fn test_front_and_front_mut() {
    let mut v1 = XorLinkedList::new();
    v1.push_front(1);
    v1.push_front(2);
    v1.push_front(3);
    v1.push_front(4);
    {
        let front_mut = v1.front_mut();
        if let Some(var) = front_mut {
            *var += 2;
        }
    }
    assert_eq!(Some(&(4 + 2)), v1.front());
}

#[test]
fn test_back_and_back_mut() {
    let mut v1 = XorLinkedList::new();
    v1.push_back(1);
    v1.push_back(2);
    v1.push_back(3);
    v1.push_back(4);
    {
        let back_mut = v1.back_mut();
        if let Some(var) = back_mut {
            *var += 2;
        }
    }
    assert_eq!(Some(&(4 + 2)), v1.back());
}

#[test]
fn test_contains() {
    let mut v1 = XorLinkedList::new();
    v1.push_back(1);
    v1.push_back(2);
    v1.push_back(3);
    v1.push_back(4);

    assert!(v1.contains(&1));
    assert!(v1.contains(&2));
    assert!(v1.contains(&3));
    assert!(v1.contains(&4));
    assert!(!v1.contains(&5));
}
