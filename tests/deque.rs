use linked_lists::deque::Deque;
use std::rc::Rc;

#[test]
fn fourth_basics() {
    let mut deque = Deque::new();

    // Check empty deque behaves right
    assert_eq!(deque.pop_front(), None);

    // Populate deque
    deque.push_front(1);
    deque.push_front(2);
    deque.push_front(3);

    // Check normal removal
    assert_eq!(deque.pop_front(), Some(3));
    assert_eq!(deque.pop_front(), Some(2));

    // Push some more just to make sure nothing's corrupted
    deque.push_front(4);
    deque.push_front(5);

    // Check normal removal
    assert_eq!(deque.pop_front(), Some(5));
    assert_eq!(deque.pop_front(), Some(4));

    // Check exhaustion
    assert_eq!(deque.pop_front(), Some(1));
    assert_eq!(deque.pop_front(), None);
}

#[test]
fn fourth_peek() {
    let mut deque = Deque::new();
    assert!(deque.peek_front().is_none());
    deque.push_front(1);
    deque.push_front(2);
    deque.push_front(3);

    assert_eq!(&*deque.peek_front().unwrap(), &3);
}

#[test]
fn deque_empty_reports_absence() {
    let mut deque: Deque<i32> = Deque::new();
    assert_eq!(deque.pop_front(), None);
    assert_eq!(deque.peek_front(), None);
    assert_eq!(deque.peek_front_mut(), None);
    assert_eq!(deque.pop_back(), None);
    assert_eq!(deque.peek_back(), None);
    assert_eq!(deque.peek_back_mut(), None);
}

#[test]
fn deque_front_is_lifo() {
    let mut deque = Deque::new();
    deque.push_front(1);
    deque.push_front(2);
    deque.push_front(3);
    assert_eq!(deque.pop_front(), Some(3));
    assert_eq!(deque.pop_front(), Some(2));
    assert_eq!(deque.pop_front(), Some(1));
    assert_eq!(deque.pop_front(), None);
}

#[test]
fn deque_peek_leaves_element() {
    let mut deque = Deque::new();
    deque.push_front(1);
    deque.push_front(2);
    deque.push_front(3);
    assert_eq!(deque.peek_front(), Some(&3));
    assert_eq!(deque.peek_front(), Some(&3));
    assert_eq!(deque.pop_front(), Some(3));
    assert_eq!(deque.peek_front(), Some(&2));
}

#[test]
fn deque_peek_mut_changes_in_place() {
    let mut deque = Deque::new();
    deque.push_front(1);
    deque.push_front(2);
    if let Some(v) = deque.peek_front_mut() {
        *v = 20;
    }
    if let Some(v) = deque.peek_back_mut() {
        *v = 10;
    }
    assert_eq!(deque.peek_front(), Some(&20));
    assert_eq!(deque.peek_back(), Some(&10));
    assert_eq!(deque.pop_front(), Some(20));
    assert_eq!(deque.pop_front(), Some(10));
    assert_eq!(deque.pop_front(), None);
}

#[test]
fn deque_back_operations() {
    let mut deque = Deque::new();
    deque.push_back(1);
    deque.push_back(2);
    deque.push_front(0);
    assert_eq!(deque.peek_back(), Some(&2));
    assert_eq!(deque.pop_back(), Some(2));
    assert_eq!(deque.pop_back(), Some(1));
    assert_eq!(deque.pop_back(), Some(0));
    assert_eq!(deque.pop_back(), None);
    deque.push_back(7);
    assert_eq!(deque.pop_front(), Some(7));
    assert_eq!(deque.pop_back(), None);
}

#[test]
fn deque_count_is_conserved() {
    let mut deque = Deque::new();
    let mut pushes = 0;
    let mut pops = 0;
    for round in 0..50 {
        for i in 0..(round % 7) {
            deque.push_front(i);
            pushes += 1;
        }
        for _ in 0..(round % 5) {
            if deque.pop_front().is_some() {
                pops += 1;
            }
        }
    }
    let mut remaining = 0;
    while deque.pop_front().is_some() {
        remaining += 1;
    }
    assert_eq!(remaining, pushes - pops);
    assert_eq!(deque.pop_front(), None);
}

#[test]
fn deque_reuses_freed_slots() {
    let mut deque = Deque::new();
    for i in 0..10 {
        deque.push_back(i);
    }
    for i in 0..5 {
        assert_eq!(deque.pop_front(), Some(i));
    }
    for i in 10..15 {
        deque.push_back(i);
    }
    for i in 5..15 {
        assert_eq!(deque.pop_front(), Some(i));
    }
    assert_eq!(deque.pop_front(), None);
}

#[test]
fn deque_into_iter_yields_front_to_back() {
    let mut deque = Deque::new();
    deque.push_front(1);
    deque.push_front(2);
    deque.push_front(3);
    let mut iter = deque.into_iter();
    assert_eq!(iter.next(), Some(3));
    assert_eq!(iter.next(), Some(2));
    assert_eq!(iter.next(), Some(1));
    assert_eq!(iter.next(), None);
    assert_eq!(iter.next(), None);
}

#[test]
fn deque_into_iter_from_both_ends() {
    let mut deque = Deque::new();
    deque.push_front(1);
    deque.push_front(2);
    deque.push_front(3);
    let mut iter = deque.into_iter();
    assert_eq!(iter.next_back(), Some(1));
    assert_eq!(iter.next(), Some(3));
    assert_eq!(iter.next_back(), Some(2));
    assert_eq!(iter.next_back(), None);
    assert_eq!(iter.next(), None);
}

fn teardown_releases(n: usize) {
    let tracker = Rc::new(());
    let mut deque = Deque::new();
    for i in 0..n {
        if i % 2 == 0 {
            deque.push_front(Rc::clone(&tracker));
        } else {
            deque.push_back(Rc::clone(&tracker));
        }
    }
    assert_eq!(Rc::strong_count(&tracker), n + 1);
    drop(deque);
    assert_eq!(Rc::strong_count(&tracker), 1);
}

#[test]
fn deque_teardown_releases_every_node() {
    teardown_releases(0);
    teardown_releases(1);
    teardown_releases(2);
    teardown_releases(1000);
}

#[test]
fn deque_pop_releases_node() {
    let tracker = Rc::new(());
    let mut deque = Deque::new();
    deque.push_front(Rc::clone(&tracker));
    deque.push_front(Rc::clone(&tracker));
    let popped = deque.pop_front();
    assert_eq!(Rc::strong_count(&tracker), 3);
    drop(popped);
    assert_eq!(Rc::strong_count(&tracker), 2);
    drop(deque);
    assert_eq!(Rc::strong_count(&tracker), 1);
}
