use algokit::data_structures::stack::{Stack, StackError, GROWTH_STEP};
use std::cell::Cell;
use std::rc::Rc;

struct Counted {
    drops: Rc<Cell<usize>>,
}

impl Drop for Counted {
    fn drop(&mut self) {
        self.drops.set(self.drops.get() + 1);
    }
}

fn filled(capacity: usize, values: &[i32]) -> Stack<i32> {
    let mut stack = Stack::new(capacity).unwrap();
    for v in values {
        stack.insert(*v).unwrap();
    }
    stack
}

#[test]
fn pops_come_in_reverse_push_order() {
    let values = [7, -3, 0, 12, 12, 5, 99, -1];
    let mut stack = filled(0, &values);
    assert_eq!(stack.size(), values.len());
    for v in values.iter().rev() {
        assert_eq!(stack.delete(), Some(*v));
    }
    assert_eq!(stack.delete(), None);
    assert_eq!(stack.size(), 0);
}

#[test]
fn pop_of_new_stack_is_none() {
    for capacity in [0usize, 1, 2, 5, 64] {
        let mut stack: Stack<i32> = Stack::new(capacity).unwrap();
        assert_eq!(stack.size(), 0);
        assert_eq!(stack.capacity(), capacity);
        assert_eq!(stack.delete(), None);
        assert_eq!(stack.size(), 0);
        assert_eq!(stack.capacity(), capacity);
    }
}

#[test]
fn push_past_capacity_keeps_values() {
    for k in [0usize, 1, 3, 8] {
        let mut stack: Stack<usize> = Stack::new(k).unwrap();
        for v in 0..k {
            assert_eq!(stack.insert(v), Ok(()));
            assert_eq!(stack.capacity(), k);
        }
        assert_eq!(stack.insert(k), Ok(()));
        assert_eq!(stack.capacity(), k + GROWTH_STEP);
        for v in (0..=k).rev() {
            assert_eq!(stack.delete(), Some(v));
        }
        assert_eq!(stack.delete(), None);
    }
}

#[test]
fn capacity_never_shrinks_and_bounds_size() {
    let mut stack: Stack<u8> = Stack::new(1).unwrap();
    let mut last = stack.capacity();
    for round in 0..40u8 {
        if round % 3 == 2 {
            stack.delete();
        } else {
            stack.insert(round).unwrap();
        }
        assert!(stack.capacity() >= last);
        assert!(stack.size() <= stack.capacity());
        last = stack.capacity();
    }
    while stack.delete().is_some() {
        assert_eq!(stack.capacity(), last);
    }
    assert_eq!(stack.capacity(), last);
}

#[test]
fn drop_finalizes_each_live_value_once() {
    let drops = Rc::new(Cell::new(0usize));
    let mut stack: Stack<Counted> = Stack::new(2).unwrap();
    for _ in 0..7 {
        assert!(stack.insert(Counted { drops: drops.clone() }).is_ok());
    }
    let a = stack.delete();
    let b = stack.delete();
    assert!(a.is_some() && b.is_some());
    assert_eq!(drops.get(), 0);
    assert_eq!(stack.drop(), 5);
    assert_eq!(drops.get(), 5);
    std::mem::drop(a);
    std::mem::drop(b);
    assert_eq!(drops.get(), 7);
}

#[test]
fn drop_of_empty_stack_finalizes_nothing() {
    let stack: Stack<String> = Stack::new(3).unwrap();
    assert_eq!(stack.drop(), 0);
    let stack: Stack<String> = Stack::new(0).unwrap();
    assert_eq!(stack.drop(), 0);
}

#[test]
fn three_pushes_from_zero_capacity_grow_twice() {
    let mut stack: Stack<i32> = Stack::new(0).unwrap();
    assert_eq!(stack.capacity(), 0);
    stack.insert(1).unwrap();
    assert_eq!(stack.capacity(), 2);
    stack.insert(2).unwrap();
    assert_eq!(stack.capacity(), 2);
    stack.insert(3).unwrap();
    assert_eq!(stack.capacity(), 4);
    assert_eq!(stack.delete(), Some(3));
    assert_eq!(stack.delete(), Some(2));
    assert_eq!(stack.delete(), Some(1));
    assert_eq!(stack.delete(), None);
}

#[test]
fn five_pushes_fit_capacity_five() {
    let mut stack = filled(5, &[10, 20, 30, 40, 50]);
    assert_eq!(stack.capacity(), 5);
    assert_eq!(stack.delete(), Some(50));
    assert_eq!(stack.delete(), Some(40));
    assert_eq!(stack.delete(), Some(30));
    assert_eq!(stack.delete(), Some(20));
    assert_eq!(stack.capacity(), 5);
    assert_eq!(stack.size(), 1);
}

#[test]
fn third_push_grows_capacity_two_once() {
    let mut stack: Stack<&str> = Stack::new(2).unwrap();
    stack.insert("a").unwrap();
    stack.insert("b").unwrap();
    assert_eq!(stack.capacity(), 2);
    stack.insert("c").unwrap();
    assert_eq!(stack.capacity(), 4);
    assert!(stack.capacity() >= 3);
    assert_eq!(stack.delete(), Some("c"));
    assert_eq!(stack.delete(), Some("b"));
    assert_eq!(stack.delete(), Some("a"));
    assert_eq!(stack.delete(), None);
    assert_eq!(stack.capacity(), 4);
}

#[test]
fn new_fails_when_block_cannot_be_allocated() {
    let result: Result<Stack<u64>, StackError> = Stack::new(usize::MAX);
    assert!(matches!(result, Err(StackError::AllocationFailure)));
}

#[test]
fn grow_fails_and_keeps_the_stack() {
    let mut stack: Stack<u64> = Stack::new(2).unwrap();
    stack.insert(4).unwrap();
    stack.insert(5).unwrap();
    assert_eq!(stack.grow(usize::MAX), Err(StackError::AllocationFailure));
    assert_eq!(stack.capacity(), 2);
    assert_eq!(stack.size(), 2);
    assert_eq!(stack.delete(), Some(5));
    assert_eq!(stack.delete(), Some(4));
}

#[test]
fn grow_keeps_values_and_sets_capacity() {
    let mut stack = filled(2, &[1, 2]);
    assert_eq!(stack.grow(10), Ok(()));
    assert_eq!(stack.capacity(), 10);
    assert_eq!(stack.size(), 2);
    for v in 3..=10 {
        stack.insert(v).unwrap();
    }
    assert_eq!(stack.capacity(), 10);
    for v in (1..=10).rev() {
        assert_eq!(stack.delete(), Some(v));
    }
}

#[test]
fn from_block_follows_the_allocator() {
    let ok: Result<Stack<i32>, StackError> = Stack::from_block(Vec::new(), 3, true);
    let stack = ok.unwrap();
    assert_eq!(stack.capacity(), 3);
    assert_eq!(stack.size(), 0);
    let failed: Result<Stack<i32>, StackError> = Stack::from_block(Vec::new(), 3, false);
    assert!(matches!(failed, Err(StackError::AllocationFailure)));
}

#[test]
fn adopt_block_follows_the_allocator() {
    let mut stack = filled(1, &[9]);
    assert_eq!(stack.adopt_block(Vec::new(), 4, false), Err(StackError::AllocationFailure));
    assert_eq!(stack.capacity(), 1);
    assert_eq!(stack.size(), 1);
    assert_eq!(stack.adopt_block(Vec::new(), 4, true), Ok(()));
    assert_eq!(stack.capacity(), 4);
    assert_eq!(stack.size(), 1);
    assert_eq!(stack.delete(), Some(9));
}

#[test]
fn push_into_free_slot_needs_no_growth() {
    let mut stack: Stack<i32> = Stack::new(3).unwrap();
    for v in 0..3 {
        assert_eq!(stack.insert(v), Ok(()));
        assert_eq!(stack.capacity(), 3);
    }
    assert_eq!(stack.size(), 3);
}
