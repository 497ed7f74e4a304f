use stack_set::StackSet;

#[test]
fn new_stack_is_empty() {
    let stack: StackSet = StackSet::new();
    assert!(stack.is_empty());
}

#[test]
fn stack_is_not_empty_after_push() {
    let mut stack: StackSet = StackSet::new();
    stack.push(0);
    assert!(!stack.is_empty());
}

#[test]
fn stack_has_no_top_when_empty() {
    let stack: StackSet = StackSet::new();
    assert_eq!(stack.top(), None);
}

#[test]
fn top_returns_last_element_that_was_added() {
    let mut stack: StackSet = StackSet::new();
    stack.push(0);
    assert_eq!(stack.top(), Some(0));
    stack.push(1);
    assert_eq!(stack.top(), Some(1));
}

#[test]
fn pop_returns_and_removes_top_element() {
    let mut stack: StackSet = StackSet::new();
    stack.push(0);
    stack.push(1);
    assert_eq!(stack.pop(), 1);
    assert_eq!(stack.pop(), 0);
}

#[test]
fn empty_stack_contains_nothing() {
    let stack: StackSet = StackSet::new();
    assert!(!stack.contains(0));
}

#[test]
fn stack_contains_element_that_was_added() {
    let mut stack: StackSet = StackSet::new();
    stack.push(0);
    assert!(stack.contains(0));
}

#[test]
fn stack_does_not_contain_element_that_was_popped() {
    let mut stack: StackSet = StackSet::new();
    stack.push(0);
    stack.pop();
    assert!(!stack.contains(0));
}

#[test]
fn push_pop_contains_scenario() {
    let mut stack: StackSet = StackSet::new();
    stack.push(0);
    stack.push(1);
    stack.push(2);
    assert_eq!(stack.top(), Some(2));
    assert!(stack.contains(1));
    assert_eq!(stack.pop(), 2);
    assert!(!stack.contains(2));
    assert_eq!(stack.pop(), 1);
    assert_eq!(stack.pop(), 0);
    assert!(stack.is_empty());
}

#[test]
fn pops_come_back_in_reverse_order_of_pushes() {
    let mut stack: StackSet = StackSet::new();
    let keys: Vec<usize> = (0..40).map(|i| i * 13 + 5).collect();
    for &k in keys.iter() {
        stack.push(k);
    }
    for &k in keys.iter().rev() {
        assert_eq!(stack.top(), Some(k));
        assert_eq!(stack.pop(), k);
    }
    assert!(stack.is_empty());
}

#[test]
fn top_tracks_most_recent_unpopped_key() {
    let mut stack: StackSet = StackSet::new();
    stack.push(7);
    stack.push(8);
    assert_eq!(stack.pop(), 8);
    assert_eq!(stack.top(), Some(7));
    stack.push(9);
    assert_eq!(stack.top(), Some(9));
}

#[test]
fn membership_survives_other_pushes_and_pops() {
    let mut stack: StackSet = StackSet::new();
    stack.push(42);
    for k in 0..30 {
        stack.push(k);
    }
    assert!(stack.contains(42));
    for _ in 0..30 {
        stack.pop();
    }
    assert!(stack.contains(42));
    assert_eq!(stack.pop(), 42);
    assert!(!stack.contains(42));
}

#[test]
fn round_trip_returns_to_empty() {
    let mut stack: StackSet = StackSet::new();
    for k in 0..100 {
        stack.push(k * 3 + 1);
    }
    assert!(!stack.is_empty());
    for _ in 0..100 {
        stack.pop();
    }
    assert!(stack.is_empty());
    assert_eq!(stack.top(), None);
}

#[test]
fn contains_is_exact_across_repeated_resizes() {
    // Capacity starts at 11 and doubles to the next prime each time the
    // table reaches half full, so 60 keys force several growth steps.
    let mut stack: StackSet = StackSet::new();
    for k in 0..60 {
        stack.push(k * 17 + 2);
    }
    for k in 0..60 {
        assert!(stack.contains(k * 17 + 2));
    }
    for k in 0..60 {
        assert!(!stack.contains(k * 17 + 3));
    }
    for k in (30..60).rev() {
        assert_eq!(stack.pop(), k * 17 + 2);
    }
    for k in 0..30 {
        assert!(stack.contains(k * 17 + 2));
    }
    for k in 30..60 {
        assert!(!stack.contains(k * 17 + 2));
    }
}

#[test]
fn colliding_keys_are_told_apart() {
    // All of these hash to the same starting slot of the initial table of
    // length 11, so lookups must walk the probe sequence.
    let mut stack: StackSet = StackSet::new();
    stack.push(3);
    stack.push(14);
    stack.push(25);
    assert!(stack.contains(3));
    assert!(stack.contains(14));
    assert!(stack.contains(25));
    assert!(!stack.contains(36));
    assert_eq!(stack.pop(), 25);
    assert!(!stack.contains(25));
    assert!(stack.contains(14));
    assert!(stack.contains(3));
}
