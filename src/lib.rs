//! Linked-list containers: a doubly-linked deque whose nodes live in an
//! index-addressed arena, and two singly-linked stacks built from boxed nodes.

pub mod deque;
pub mod stack;
pub mod int_stack;
