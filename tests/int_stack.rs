use linked_lists::int_stack::Stack;

#[test]
fn first_basics() {
    let mut stack = Stack::new();

    // Check empty stack behaves right
    assert_eq!(stack.pop(), None);

    // Populate stack
    stack.push(1);
    stack.push(2);
    stack.push(3);

    // Check normal removal
    assert_eq!(stack.pop(), Some(3));
    assert_eq!(stack.pop(), Some(2));

    // Push some more just to make sure nothing's corrupted
    stack.push(4);
    stack.push(5);

    // Check normal removal
    assert_eq!(stack.pop(), Some(5));
    assert_eq!(stack.pop(), Some(4));

    // Check exhaustion
    assert_eq!(stack.pop(), Some(1));
    assert_eq!(stack.pop(), None);
}

#[test]
fn int_stack_extreme_values() {
    let mut stack = Stack::new();
    stack.push(i32::MIN);
    stack.push(i32::MAX);
    stack.push(0);
    assert_eq!(stack.pop(), Some(0));
    assert_eq!(stack.pop(), Some(i32::MAX));
    assert_eq!(stack.pop(), Some(i32::MIN));
    assert_eq!(stack.pop(), None);
}

#[test]
fn int_stack_long_teardown() {
    let mut stack = Stack::new();
    for i in 0..200_000 {
        stack.push(i);
    }
    assert_eq!(stack.pop(), Some(199_999));
    drop(stack);
}
