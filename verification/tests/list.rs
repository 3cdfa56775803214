use linked_list_rs::list::List;

fn pop_value<T>(list: &mut List<T>) -> Option<T> {
    match list.pop_front() {
        Some(h) => Some(h.unwrap(list)),
        None => None,
    }
}

#[test]
fn basics() {
    let mut list = List::new();

    // Check empty list behaves right
    assert_eq!(pop_value(&mut list), None);

    // Populate list
    let h1 = list.push_front(1);
    h1.discard(&mut list);
    let h2 = list.push_front(2);
    h2.discard(&mut list);
    let h3 = list.push_front(3);
    h3.discard(&mut list);

    // Check normal removal
    assert_eq!(pop_value(&mut list), Some(3));
    assert_eq!(pop_value(&mut list), Some(2));

    // Push some more just to make sure nothing's corrupted
    let r4 = list.push_front(4);
    r4.discard(&mut list);
    let h5 = list.push_front(5);
    h5.discard(&mut list);

    // Check normal removal
    assert_eq!(pop_value(&mut list), Some(5));
    assert_eq!(pop_value(&mut list), Some(4));

    // Check exhaustion
    assert_eq!(pop_value(&mut list), Some(1));
    assert_eq!(pop_value(&mut list), None);
}

#[test]
fn peek() {
    let mut list = List::new();
    assert!(list.peek_front().is_none());
    assert!(list.peek_front_mut().is_none());

    let h1 = list.push_front(1);
    h1.discard(&mut list);
    let h2 = list.push_front(2);
    h2.discard(&mut list);
    let h3 = list.push_front(3);
    h3.discard(&mut list);

    assert_eq!(list.peek_front(), Some(&3));
    let w = list.peek_front_mut().unwrap();
    assert_eq!(*w.get(&list), 3);
    w.release(&mut list);
}

#[test]
fn into_iter() {
    let mut list = List::new();
    let h1 = list.push_front(1);
    h1.discard(&mut list);
    let h2 = list.push_front(2);
    h2.discard(&mut list);
    let h3 = list.push_front(3);
    h3.discard(&mut list);

    let mut iter = list.into_iter();
    assert_eq!(iter.next(), Some(3));
    assert_eq!(iter.next(), Some(2));
    assert_eq!(iter.next(), Some(1));
}

#[test]
fn pops_reverse_push_order() {
    let mut list = List::new();
    for v in [10, 20, 30, 40] {
        let h = list.push_front(v);
        h.discard(&mut list);
    }
    assert_eq!(pop_value(&mut list), Some(40));
    assert_eq!(pop_value(&mut list), Some(30));
    assert_eq!(pop_value(&mut list), Some(20));
    assert_eq!(pop_value(&mut list), Some(10));
    assert_eq!(pop_value(&mut list), None);
}

#[test]
fn fresh_list_pops_nothing() {
    let mut list: List<i32> = List::new();
    assert!(list.pop_front().is_none());
    assert!(list.pop_front().is_none());

    // A popped-at list accepts pushes exactly like a fresh one.
    let h = list.push_front(7);
    h.discard(&mut list);
    assert_eq!(pop_value(&mut list), Some(7));
    assert_eq!(pop_value(&mut list), None);
}

#[test]
fn peek_then_mutate_front() {
    let mut list = List::new();
    let h2 = list.push_front(2);
    h2.discard(&mut list);
    let h3 = list.push_front(3);
    h3.discard(&mut list);

    assert_eq!(list.peek_front(), Some(&3));

    let w = list.peek_front_mut().unwrap();
    w.set(&mut list, 99);
    w.release(&mut list);

    assert_eq!(pop_value(&mut list), Some(99));
    assert_eq!(pop_value(&mut list), Some(2));
    assert_eq!(pop_value(&mut list), None);
}

#[test]
fn discarded_handle_leaves_list_intact() {
    let mut list = List::new();
    let h1 = list.push_front(1);
    h1.discard(&mut list);
    // Give up the handle from this push immediately, without unwrapping.
    let h2 = list.push_front(2);
    h2.discard(&mut list);
    let h3 = list.push_front(3);
    h3.discard(&mut list);

    // The remaining nodes pop cleanly, each payload exactly once.
    let a = pop_value(&mut list).unwrap();
    let b = pop_value(&mut list).unwrap();
    let c = pop_value(&mut list).unwrap();
    assert_eq!((a, b, c), (3, 2, 1));
    assert!(pop_value(&mut list).is_none());
}

#[test]
fn into_iter_terminates() {
    let mut list = List::new();
    for v in [1, 2, 3] {
        let h = list.push_front(v);
        h.discard(&mut list);
    }
    let mut iter = list.into_iter();
    assert_eq!(iter.next(), Some(3));
    assert_eq!(iter.next(), Some(2));
    assert_eq!(iter.next(), Some(1));
    assert_eq!(iter.next(), None);
    assert_eq!(iter.next(), None);
}

#[test]
fn read_borrow_blocks_write_borrow() {
    let mut list = List::new();
    let h = list.push_front(5);

    let r1 = h.contents(&mut list);
    // A write borrow must be refused while a read borrow is alive.
    assert!(!h.can_write(&list));
    // Further read borrows are fine.
    let r2 = h.contents(&mut list);
    assert_eq!(*r1.get(&list), 5);
    assert_eq!(*r2.get(&list), 5);
    r2.release(&mut list);
    assert!(!h.can_write(&list));
    r1.release(&mut list);

    // With every read borrow released, the write borrow succeeds.
    assert!(h.can_write(&list));
    let w = h.contents_mut(&mut list);
    // And while it is alive, no borrow of either kind may be taken.
    assert!(!h.can_read(&list));
    assert!(!h.can_write(&list));
    w.set(&mut list, 9);
    w.release(&mut list);

    h.discard(&mut list);
    assert_eq!(pop_value(&mut list), Some(9));
}

#[test]
fn unwrap_needs_sole_ownership() {
    let mut list = List::new();
    let pushed = list.push_front(1);

    // While the list still links to the node, unwrapping is refused.
    assert!(!pushed.can_unwrap(&list));

    let popped = list.pop_front().unwrap();
    // Two handles to the node exist, so neither may unwrap yet.
    assert!(!popped.can_unwrap(&list));
    pushed.discard(&mut list);
    // Now the popped handle is the sole owner.
    assert!(popped.can_unwrap(&list));
    assert_eq!(popped.unwrap(&mut list), 1);
}

#[test]
fn unwrap_after_pop_returns_exact_payload() {
    let mut list = List::new();
    let h = list.push_front(42);
    h.discard(&mut list);
    let popped = list.pop_front().unwrap();
    assert!(popped.can_unwrap(&list));
    assert_eq!(popped.unwrap(&mut list), 42);
}

#[test]
fn large_list_teardown() {
    let mut list = List::new();
    for i in 0..10000 {
        let h = list.push_front(i);
        h.discard(&mut list);
    }
    assert_eq!(list.peek_front(), Some(&9999));
    // The whole chain is torn down when `list` goes out of scope; with
    // 10,000 nodes this must not exhaust the call stack.
}

#[test]
fn large_list_drains_in_order() {
    let mut list = List::new();
    for i in 0..10000 {
        let h = list.push_front(i);
        h.discard(&mut list);
    }
    let mut iter = list.into_iter();
    let mut expected = 9999;
    while let Some(v) = iter.next() {
        assert_eq!(v, expected);
        expected -= 1;
    }
    assert_eq!(expected, -1);
}
