use linked_lists::stack::Stack;

#[test]
fn second_basics() {
    let mut stack = Stack::new();

    // Check empty stack behaves right
    assert_eq!(stack.pop(), None);

    // Populate stack
    stack.push(1);
    stack.push(2);
    stack.push(3);

    // Check normal removal
    assert_eq!(stack.pop(), Some(3));
    assert_eq!(stack.pop(), Some(2));

    // Push some more just to make sure nothing's corrupted
    stack.push(4);
    stack.push(5);

    // Check normal removal
    assert_eq!(stack.pop(), Some(5));
    assert_eq!(stack.pop(), Some(4));

    // Check exhaustion
    assert_eq!(stack.pop(), Some(1));
    assert_eq!(stack.pop(), None);
}

#[test]
fn generics() {
    let mut stack = Stack::new();
    stack.push(1);
    assert_eq!(stack.pop(), Some(1));

    let mut stack2 = Stack::new();
    stack2.push("hello");
    assert_eq!(stack2.pop(), Some("hello"));
}

#[test]
fn second_peek() {
    let mut stack = Stack::new();
    assert_eq!(stack.peek(), None);
    assert_eq!(stack.peek_mut(), None);
    stack.push(1);
    stack.push(2);
    stack.push(3);

    assert_eq!(stack.peek(), Some(&3));
    assert_eq!(stack.peek_mut(), Some(&mut 3));

    stack.peek_mut().map(|value: &mut i32| *value = 42);
    assert_eq!(stack.peek(), Some(&42));
    assert_eq!(stack.pop(), Some(42));
}

#[test]
fn into_iter() {
    let mut stack = Stack::new();
    stack.push(1);
    stack.push(2);
    stack.push(3);

    let mut iter = stack.into_iter();
    assert_eq!(iter.next(), Some(3));
    assert_eq!(iter.next(), Some(2));
    assert_eq!(iter.next(), Some(1));
}

#[test]
fn iter() {
    let mut stack = Stack::new();
    stack.push(1);
    stack.push(2);
    stack.push(3);

    {
        let mut iter = stack.iter();
        assert_eq!(iter.next(), Some(&3));
        assert_eq!(iter.next(), Some(&2));
        assert_eq!(iter.next(), Some(&1));
    }
    stack.push(17);
    let mut iter = stack.iter();
    assert_eq!(iter.next(), Some(&17));
}

#[test]
fn iter_mut() {
    let mut stack = Stack::new();
    stack.push(1);
    stack.push(2);
    stack.push(3);

    let mut iter = stack.iter_mut();
    assert_eq!(iter.next(), Some(&mut 3));
    assert_eq!(iter.next(), Some(&mut 2));
    assert_eq!(iter.next(), Some(&mut 1));
}

#[test]
fn stack_iterators_end() {
    let mut stack = Stack::new();
    stack.push(1);
    let mut into = stack.into_iter();
    assert_eq!(into.next(), Some(1));
    assert_eq!(into.next(), None);
    assert_eq!(into.next(), None);

    let empty: Stack<i32> = Stack::new();
    assert_eq!(empty.iter().next(), None);
}

#[test]
fn stack_iter_mut_writes_through() {
    let mut stack = Stack::new();
    stack.push(1);
    stack.push(2);
    stack.push(3);
    {
        let mut iter = stack.iter_mut();
        while let Some(v) = iter.next() {
            *v *= 10;
        }
    }
    assert_eq!(stack.pop(), Some(30));
    assert_eq!(stack.pop(), Some(20));
    assert_eq!(stack.pop(), Some(10));
    assert_eq!(stack.pop(), None);
}

#[test]
fn stack_long_teardown() {
    let mut stack = Stack::new();
    for i in 0..200_000u32 {
        stack.push(i);
    }
    assert_eq!(stack.peek(), Some(&199_999));
    drop(stack);
}
