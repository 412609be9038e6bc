use lista_circular::Circle;

#[test]
fn test_circle_empty() {
    let circle: Circle<i64> = Circle::new(None);
    assert!(circle.is_empty());
}

#[test]
fn empty_ring_is_safe() {
    let mut ring: Circle<i64> = Circle::new(None);
    assert_eq!(ring.current_value(), None);
    assert_eq!(ring.move_next(), None);
    assert!(ring.is_empty());
    assert_eq!(ring.move_previous(), None);
    assert!(ring.is_empty());
    assert_eq!(ring.remove_current(), None);
    assert!(ring.is_empty());
    assert_eq!(ring.count(), 0);
    assert_eq!(ring.to_vec(), Vec::<i64>::new());
}

#[test]
fn insert_after_order_is_fixed() {
    // The cursor stays put, and each new node lands right after it:
    // [a], then [a, b], then [a, c, b].
    let mut ring: Circle<&str> = Circle::new(None);
    ring.insert_after_current("a");
    assert_eq!(ring.to_vec(), vec!["a"]);
    assert_eq!(ring.current_value(), Some("a"));
    ring.insert_after_current("b");
    assert_eq!(ring.to_vec(), vec!["a", "b"]);
    ring.insert_after_current("c");
    assert_eq!(ring.to_vec(), vec!["a", "c", "b"]);
    assert_eq!(ring.current_value(), Some("a"));
    assert_eq!(ring.count(), 3);
}

#[test]
fn insert_before_appends_to_view() {
    // A node inserted before the cursor is the last element of the
    // cursor-first view.
    let mut ring: Circle<u64> = Circle::new(None);
    ring.insert_before_current(1);
    ring.insert_before_current(2);
    ring.insert_before_current(3);
    assert_eq!(ring.to_vec(), vec![1, 2, 3]);
    assert_eq!(ring.current_value(), Some(1));
}

#[test]
fn singleton_is_a_self_loop() {
    // With one node, stepping in either direction stays on it.
    let mut ring: Circle<u64> = Circle::new(None);
    ring.insert_after_current(7);
    assert_eq!(ring.count(), 1);
    assert_eq!(ring.move_next(), Some(7));
    assert_eq!(ring.move_previous(), Some(7));
    assert_eq!(ring.current_value(), Some(7));
    assert_eq!(ring.remove_current(), Some(7));
    assert!(ring.is_empty());
    assert_eq!(ring.count(), 0);
}

#[test]
fn moves_rotate_the_view() {
    let mut ring: Circle<u64> = Circle::new(None);
    ring.insert_after_current(1);
    ring.insert_after_current(2);
    ring.insert_after_current(3);
    assert_eq!(ring.to_vec(), vec![1, 3, 2]);
    assert_eq!(ring.move_next(), Some(3));
    assert_eq!(ring.to_vec(), vec![3, 2, 1]);
    assert_eq!(ring.move_next(), Some(2));
    assert_eq!(ring.to_vec(), vec![2, 1, 3]);
    assert_eq!(ring.move_previous(), Some(3));
    assert_eq!(ring.move_previous(), Some(1));
    assert_eq!(ring.to_vec(), vec![1, 3, 2]);
}

#[test]
fn full_cycle_returns_to_start() {
    let mut ring: Circle<u64> = Circle::new(None);
    ring.insert_after_current(10);
    ring.insert_after_current(20);
    ring.insert_after_current(30);
    let n = ring.count();
    for _ in 0..n {
        ring.move_next();
    }
    assert_eq!(ring.current_value(), Some(10));
    for _ in 0..n {
        ring.move_previous();
    }
    assert_eq!(ring.current_value(), Some(10));
}

#[test]
fn remove_advances_the_cursor() {
    let mut ring: Circle<u64> = Circle::new(None);
    ring.insert_after_current(1);
    ring.insert_after_current(2);
    ring.insert_after_current(3);
    // view is [1, 3, 2]
    assert_eq!(ring.remove_current(), Some(1));
    assert_eq!(ring.to_vec(), vec![3, 2]);
    assert_eq!(ring.remove_current(), Some(3));
    assert_eq!(ring.to_vec(), vec![2]);
    assert_eq!(ring.remove_current(), Some(2));
    assert_eq!(ring.remove_current(), None);
    assert!(ring.is_empty());
}

#[test]
fn eviction_with_capacity_two() {
    // At capacity, insert_after_current evicts the node at cursor.next:
    // of {1, 2, 3}, the values 1 and 3 remain. This is a position-relative
    // rule, not least-recently-used eviction.
    let mut ring: Circle<u64> = Circle::new(Some(2));
    ring.insert_after_current(1);
    ring.insert_after_current(2);
    assert_eq!(ring.to_vec(), vec![1, 2]);
    ring.insert_after_current(3);
    assert_eq!(ring.count(), 2);
    assert_eq!(ring.to_vec(), vec![1, 3]);
    assert_eq!(ring.current_value(), Some(1));
}

#[test]
fn eviction_before_with_capacity_two() {
    // At capacity, insert_before_current evicts the node at
    // cursor.previous and the cursor stays put.
    let mut ring: Circle<u64> = Circle::new(Some(2));
    ring.insert_before_current(1);
    ring.insert_before_current(2);
    assert_eq!(ring.to_vec(), vec![1, 2]);
    ring.insert_before_current(3);
    assert_eq!(ring.count(), 2);
    assert_eq!(ring.to_vec(), vec![1, 3]);
    assert_eq!(ring.current_value(), Some(1));
}

#[test]
fn eviction_after_keeps_the_cursor_with_capacity_three() {
    // At capacity, insert_after_current evicts exactly the node at
    // cursor.next and the cursor is restored: the new value takes the
    // freed slot right after the current node.
    let mut ring: Circle<u64> = Circle::new(Some(3));
    ring.insert_before_current(10);
    ring.insert_before_current(20);
    ring.insert_before_current(30);
    assert_eq!(ring.to_vec(), vec![10, 20, 30]);
    ring.insert_after_current(99);
    assert_eq!(ring.count(), 3);
    assert_eq!(ring.to_vec(), vec![10, 99, 30]);
    assert_eq!(ring.current_value(), Some(10));
}

#[test]
fn evictions_keep_the_cursor_on_larger_rings() {
    // With at least two nodes present, neither insertion ever changes the
    // current value, eviction included.
    let mut ring: Circle<u64> = Circle::new(Some(3));
    ring.insert_after_current(999);
    ring.insert_after_current(0);
    let mut seed: u64 = 0x853C49E6748FEA9B;
    for i in 0..20u64 {
        seed = seed.wrapping_mul(6364136223846793005).wrapping_add(1442695040888963407);
        let before = ring.current_value();
        if seed % 2 == 0 {
            ring.insert_after_current(i);
        } else {
            ring.insert_before_current(i);
        }
        assert_eq!(ring.current_value(), before);
        assert_eq!(before, Some(999));
        assert!(ring.count() <= 3);
    }
}

#[test]
fn eviction_with_capacity_one_replaces_the_node() {
    let mut ring: Circle<u64> = Circle::new(Some(1));
    ring.insert_after_current(5);
    assert_eq!(ring.to_vec(), vec![5]);
    ring.insert_after_current(6);
    assert_eq!(ring.count(), 1);
    assert_eq!(ring.to_vec(), vec![6]);
    ring.insert_before_current(7);
    assert_eq!(ring.count(), 1);
    assert_eq!(ring.to_vec(), vec![7]);
}

#[test]
fn capacity_is_never_exceeded() {
    let cap: usize = 3;
    let mut ring: Circle<u64> = Circle::new(Some(cap));
    let mut seed: u64 = 0x2545F4914F6CDD1D;
    for i in 0..40u64 {
        seed = seed.wrapping_mul(6364136223846793005).wrapping_add(1442695040888963407);
        if seed % 2 == 0 {
            ring.insert_after_current(i);
        } else {
            ring.insert_before_current(i);
        }
        assert!(ring.count() <= cap);
        assert_eq!(ring.to_vec().len(), ring.count());
    }
    assert_eq!(ring.count(), cap);
}

#[test]
fn insertions_leave_the_cursor_value_unchanged() {
    // Without a capacity no eviction can happen, and neither insertion
    // ever changes the current value.
    let mut ring: Circle<u64> = Circle::new(None);
    ring.insert_after_current(999);
    let mut seed: u64 = 0x9E3779B97F4A7C15;
    for i in 0..20u64 {
        seed = seed.wrapping_mul(6364136223846793005).wrapping_add(1442695040888963407);
        let before = ring.current_value();
        if seed % 2 == 0 {
            ring.insert_after_current(i);
        } else {
            ring.insert_before_current(i);
        }
        assert_eq!(ring.current_value(), before);
        assert_eq!(before, Some(999));
    }
    assert_eq!(ring.count(), 21);
}

#[test]
fn count_matches_the_operation_accounting() {
    // inserts minus effective removals minus evictions.
    let mut ring: Circle<u64> = Circle::new(Some(4));
    let mut inserts: usize = 0;
    let mut removals: usize = 0;
    let mut evictions: usize = 0;
    for i in 0..10u64 {
        if ring.count() >= 4 {
            evictions += 1;
        }
        ring.insert_after_current(i);
        inserts += 1;
    }
    for _ in 0..6 {
        if ring.count() > 0 {
            removals += 1;
        }
        ring.remove_current();
    }
    assert_eq!(ring.count(), inserts - removals - evictions);
}

#[test]
fn duplicate_values_do_not_cut_the_walk_short() {
    // Traversal stops on node identity, not value equality.
    let mut ring: Circle<u64> = Circle::new(None);
    ring.insert_before_current(5);
    ring.insert_before_current(5);
    ring.insert_before_current(5);
    assert_eq!(ring.count(), 3);
    assert_eq!(ring.to_vec(), vec![5, 5, 5]);
}

#[test]
fn string_payloads_round_trip() {
    let mut ring: Circle<String> = Circle::new(None);
    ring.insert_before_current(String::from("uno"));
    ring.insert_before_current(String::from("dos"));
    ring.insert_before_current(String::from("tres"));
    assert_eq!(
        ring.to_vec(),
        vec![String::from("uno"), String::from("dos"), String::from("tres")]
    );
    assert_eq!(ring.current_value(), Some(String::from("uno")));
    assert_eq!(ring.move_next(), Some(String::from("dos")));
    assert_eq!(ring.remove_current(), Some(String::from("dos")));
    assert_eq!(ring.to_vec(), vec![String::from("tres"), String::from("uno")]);
}

#[test]
fn capacity_zero_keeps_cycling_one_node() {
    // A zero capacity is outside the positive-capacity contract; the ring
    // still behaves: each insertion evicts whatever is there.
    let mut ring: Circle<u64> = Circle::new(Some(0));
    ring.insert_after_current(1);
    assert_eq!(ring.count(), 1);
    ring.insert_after_current(2);
    assert_eq!(ring.count(), 1);
    assert_eq!(ring.to_vec(), vec![2]);
}
