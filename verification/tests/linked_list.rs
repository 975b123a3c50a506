use my_linked_list::linked_list::MyLinkedList;

#[test]
fn linked_list_tests() {
    let mut ll: MyLinkedList<u8> = MyLinkedList::new();

    ll.push_back(9);
    ll.push_back(10);
    ll.push_back(11);

    assert_eq!(ll.len(), 3);

    assert_eq!(ll.pop_front(), Some(9));
    assert_eq!(ll.pop_front(), Some(10));
    assert_eq!(ll.pop_front(), Some(11));
    assert_eq!(ll.pop_front(), None);

    assert_eq!(ll.len(), 0);
}

#[test]
fn order_preserved_by_consuming_iteration() {
    let mut ll: MyLinkedList<i32> = MyLinkedList::new();
    ll.push_back(4);
    ll.push_back(8);
    ll.push_back(15);
    ll.push_back(16);
    ll.push_back(23);
    ll.push_back(42);

    let mut seen: Vec<i32> = Vec::new();
    let mut it = ll.into_iter();
    while let Some(x) = it.next() {
        seen.push(x);
    }
    assert_eq!(seen, vec![4, 8, 15, 16, 23, 42]);
}

#[test]
fn length_accounting() {
    let mut ll: MyLinkedList<i32> = MyLinkedList::new();
    assert_eq!(ll.len(), 0);
    ll.push_back(1);
    assert_eq!(ll.len(), 1);
    ll.push_front(0);
    assert_eq!(ll.len(), 2);
    assert_eq!(ll.pop_back(), Some(1));
    assert_eq!(ll.len(), 1);
    assert_eq!(ll.pop_front(), Some(0));
    assert_eq!(ll.len(), 0);
    assert_eq!(ll.pop_front(), None);
    assert_eq!(ll.len(), 0);

    let mut a: MyLinkedList<i32> = MyLinkedList::new();
    a.push_back(1);
    let mut b: MyLinkedList<i32> = MyLinkedList::new();
    b.push_back(2);
    b.push_back(3);
    a.append(&mut b);
    assert_eq!(a.len(), 3);
    assert_eq!(b.len(), 0);

    a.clear();
    assert_eq!(a.len(), 0);
}

#[test]
fn empty_container_pops_absent() {
    let mut ll: MyLinkedList<String> = MyLinkedList::new();
    assert_eq!(ll.pop_front(), None);
    assert_eq!(ll.len(), 0);
    assert_eq!(ll.pop_back(), None);
    assert_eq!(ll.len(), 0);
}

#[test]
fn append_moves_all_elements() {
    let mut a: MyLinkedList<i32> = MyLinkedList::new();
    a.push_back(1);
    a.push_back(2);
    let mut b: MyLinkedList<i32> = MyLinkedList::new();
    b.push_back(3);
    b.push_back(4);

    a.append(&mut b);

    let mut seen: Vec<i32> = Vec::new();
    let mut it = a.iter();
    while let Some(x) = it.next() {
        seen.push(*x);
    }
    assert_eq!(seen, vec![1, 2, 3, 4]);
    assert_eq!(b.len(), 0);
}

#[test]
fn append_onto_empty_swaps_state() {
    let mut a: MyLinkedList<i32> = MyLinkedList::new();
    let mut b: MyLinkedList<i32> = MyLinkedList::new();
    b.push_back(7);
    b.push_back(9);

    a.append(&mut b);

    assert_eq!(a.len(), 2);
    assert_eq!(b.len(), 0);
    assert_eq!(a.pop_front(), Some(7));
    assert_eq!(a.pop_front(), Some(9));
}

#[test]
fn append_associative_on_contents() {
    // b then c onto a
    let mut a1: MyLinkedList<i32> = MyLinkedList::new();
    a1.push_back(1);
    let mut b1: MyLinkedList<i32> = MyLinkedList::new();
    b1.push_back(2);
    b1.push_back(3);
    let mut c1: MyLinkedList<i32> = MyLinkedList::new();
    c1.push_back(4);
    a1.append(&mut b1);
    a1.append(&mut c1);

    // the concatenation of b and c onto a
    let mut a2: MyLinkedList<i32> = MyLinkedList::new();
    a2.push_back(1);
    let mut b2: MyLinkedList<i32> = MyLinkedList::new();
    b2.push_back(2);
    b2.push_back(3);
    let mut c2: MyLinkedList<i32> = MyLinkedList::new();
    c2.push_back(4);
    b2.append(&mut c2);
    a2.append(&mut b2);

    let mut seen1: Vec<i32> = Vec::new();
    let mut it1 = a1.into_iter();
    while let Some(x) = it1.next() {
        seen1.push(x);
    }
    let mut seen2: Vec<i32> = Vec::new();
    let mut it2 = a2.into_iter();
    while let Some(x) = it2.next() {
        seen2.push(x);
    }
    assert_eq!(seen1, seen2);
    assert_eq!(seen1, vec![1, 2, 3, 4]);
}

#[test]
fn clear_behaves_like_fresh() {
    let mut ll: MyLinkedList<String> = MyLinkedList::new();
    ll.push_back(String::from("x"));
    ll.clear();
    assert_eq!(ll.len(), 0);
    assert!(ll.iter().next().is_none());

    // a subsequent push behaves as on a freshly constructed container
    ll.push_back(String::from("y"));
    assert_eq!(ll.len(), 1);
    assert_eq!(ll.pop_front(), Some(String::from("y")));
    assert_eq!(ll.pop_front(), None);
}

#[test]
fn iteration_is_restartable() {
    let mut ll: MyLinkedList<i32> = MyLinkedList::new();
    ll.push_back(10);
    ll.push_back(20);
    ll.push_back(30);

    let mut first: Vec<i32> = Vec::new();
    let mut it1 = ll.iter();
    while let Some(x) = it1.next() {
        first.push(*x);
    }
    let mut second: Vec<i32> = Vec::new();
    let mut it2 = ll.iter();
    while let Some(x) = it2.next() {
        second.push(*x);
    }

    assert_eq!(first, second);
    assert_eq!(first, vec![10, 20, 30]);
    // walking the borrowing iterator did not consume anything
    assert_eq!(ll.len(), 3);
}

#[test]
fn two_borrowing_iterators_coexist() {
    let mut ll: MyLinkedList<i32> = MyLinkedList::new();
    ll.push_back(1);
    ll.push_back(2);

    let mut it1 = ll.iter();
    let mut it2 = ll.iter();
    assert_eq!(it1.next(), Some(&1));
    assert_eq!(it2.next(), Some(&1));
    assert_eq!(it1.next(), Some(&2));
    assert_eq!(it1.next(), None);
    assert_eq!(it2.next(), Some(&2));
}

#[test]
fn single_element_consuming_iteration() {
    let mut ll: MyLinkedList<i32> = MyLinkedList::new();
    ll.push_back(5);
    let mut it = ll.into_iter();
    assert_eq!(it.next(), Some(5));
    assert_eq!(it.next(), None);
    assert_eq!(it.next(), None);
}

#[test]
fn push_front_prepends() {
    let mut ll: MyLinkedList<i32> = MyLinkedList::new();
    ll.push_front(2);
    ll.push_front(1);
    ll.push_back(3);
    assert_eq!(ll.pop_front(), Some(1));
    assert_eq!(ll.pop_front(), Some(2));
    assert_eq!(ll.pop_front(), Some(3));
    assert_eq!(ll.pop_front(), None);
}

#[test]
fn pop_back_takes_from_the_tail() {
    let mut ll: MyLinkedList<i32> = MyLinkedList::new();
    ll.push_back(1);
    ll.push_back(2);
    ll.push_back(3);
    assert_eq!(ll.pop_back(), Some(3));
    assert_eq!(ll.pop_back(), Some(2));
    assert_eq!(ll.pop_back(), Some(1));
    assert_eq!(ll.pop_back(), None);
}

#[test]
fn size_hint_is_exact() {
    let mut ll: MyLinkedList<i32> = MyLinkedList::new();
    ll.push_back(1);
    ll.push_back(2);
    let mut it = ll.into_iter();
    assert_eq!(it.size_hint(), (2, Some(2)));
    assert_eq!(it.next(), Some(1));
    assert_eq!(it.size_hint(), (1, Some(1)));
    assert_eq!(it.next(), Some(2));
    assert_eq!(it.size_hint(), (0, Some(0)));
}

#[test]
fn default_is_empty() {
    let mut ll: MyLinkedList<u8> = MyLinkedList::default();
    assert_eq!(ll.len(), 0);
    assert_eq!(ll.pop_front(), None);
}
