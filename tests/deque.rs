use libvqueue::LockFreeDeque;

#[test]
fn test_basic_operations() {
    let mut deque: LockFreeDeque<i32, 5> = LockFreeDeque::new();

    // Test push_back and pop_front
    assert!(deque.push_back(1).is_ok());
    assert!(deque.push_back(2).is_ok());
    assert_eq!(deque.pop_front(), Some(1));
    assert_eq!(deque.pop_front(), Some(2));
    assert_eq!(deque.pop_front(), None);

    // Test push_front and pop_back
    assert!(deque.push_front(3).is_ok());
    assert!(deque.push_front(4).is_ok());
    assert_eq!(deque.pop_back(), Some(3));
    assert_eq!(deque.pop_back(), Some(4));
    assert_eq!(deque.pop_back(), None);
}

#[test]
fn test_capacity_limit() {
    let mut deque: LockFreeDeque<i32, 3> = LockFreeDeque::new();

    assert!(deque.push_back(1).is_ok());
    assert!(deque.push_back(2).is_ok());
    assert!(deque.push_back(3).is_err()); // Should fail, queue is full
}

#[test]
fn test_mixed_operations() {
    let mut deque: LockFreeDeque<i32, 6> = LockFreeDeque::new();

    // Mix front and back operations
    assert!(deque.push_front(1).is_ok());
    assert!(deque.push_back(2).is_ok());
    assert!(deque.push_front(0).is_ok());
    assert!(deque.push_back(3).is_ok());

    // Should be: [0, 1, 2, 3]
    assert_eq!(deque.pop_front(), Some(0));
    assert_eq!(deque.pop_back(), Some(3));
    assert_eq!(deque.pop_front(), Some(1));
    assert_eq!(deque.pop_back(), Some(2));
    assert!(deque.is_empty());
}

#[test]
fn test_dequeue() {
    let mut deque = LockFreeDeque::<usize, 16>::new();
    for i in 0..4 {
        let _ = deque.push_front(i);
    }
    for _ in 0..18 {
        println!("{:?}", deque.pop_front());
    }
}

#[test]
fn dequeue_drains_front_pushes_in_reverse_then_stays_empty() {
    let mut deque = LockFreeDeque::<usize, 16>::new();
    for i in 0..4 {
        assert!(deque.push_front(i).is_ok());
    }
    assert_eq!(deque.pop_front(), Some(3));
    assert_eq!(deque.pop_front(), Some(2));
    assert_eq!(deque.pop_front(), Some(1));
    assert_eq!(deque.pop_front(), Some(0));
    for _ in 4..18 {
        assert_eq!(deque.pop_front(), None);
    }
}

#[test]
fn scenario_push_back_pop_front_in_order() {
    let mut deque: LockFreeDeque<i32, 5> = LockFreeDeque::new();
    assert_eq!(deque.push_back(1), Ok(()));
    assert_eq!(deque.push_back(2), Ok(()));
    assert_eq!(deque.pop_front(), Some(1));
    assert_eq!(deque.pop_front(), Some(2));
    assert_eq!(deque.pop_front(), None);
}

#[test]
fn scenario_push_front_pop_back_then_empty() {
    let mut deque: LockFreeDeque<i32, 5> = LockFreeDeque::new();
    assert_eq!(deque.push_front(3), Ok(()));
    assert_eq!(deque.push_front(4), Ok(()));
    assert_eq!(deque.pop_back(), Some(3));
    assert_eq!(deque.pop_back(), Some(4));
    assert!(deque.is_empty());
}

#[test]
fn full_push_hands_back_the_payload() {
    let mut deque: LockFreeDeque<i32, 3> = LockFreeDeque::new();
    assert_eq!(deque.push_back(1), Ok(()));
    assert_eq!(deque.push_back(2), Ok(()));
    assert_eq!(deque.push_back(3), Err(3));
    assert_eq!(deque.push_front(7), Err(7));
    assert_eq!(deque.len(), 2);
    assert_eq!(deque.pop_front(), Some(1));
    assert_eq!(deque.pop_front(), Some(2));
}

#[test]
fn push_until_full_then_one_more() {
    let mut deque: LockFreeDeque<u64, 8> = LockFreeDeque::new();
    let mut pushed = 0;
    for i in 0..100u64 {
        if deque.push_back(i).is_err() {
            break;
        }
        pushed += 1;
    }
    assert_eq!(pushed, 7);
    assert_eq!(deque.len(), 7);
    assert_eq!(deque.push_back(999), Err(999));
    assert_eq!(deque.push_front(998), Err(998));
    assert_eq!(deque.len(), 7);
}

#[test]
fn pop_until_empty_then_one_more() {
    let mut deque: LockFreeDeque<u64, 8> = LockFreeDeque::new();
    for i in 0..5u64 {
        assert!(deque.push_front(i).is_ok());
    }
    let mut popped = 0;
    while deque.pop_back().is_some() {
        popped += 1;
    }
    assert_eq!(popped, 5);
    assert_eq!(deque.pop_back(), None);
    assert_eq!(deque.pop_front(), None);
}

#[test]
fn pop_on_empty_is_always_none() {
    let mut deque: LockFreeDeque<u8, 4> = LockFreeDeque::new();
    for _ in 0..10 {
        assert_eq!(deque.pop_front(), None);
        assert_eq!(deque.pop_back(), None);
        assert!(deque.is_empty());
        assert_eq!(deque.len(), 0);
    }
}

#[test]
fn sums_are_conserved_over_mixed_operations() {
    let mut deque: LockFreeDeque<u64, 16> = LockFreeDeque::new();
    let mut pushed: u64 = 0;
    let mut popped: u64 = 0;
    for i in 1..200u64 {
        let ok = if i % 3 == 0 {
            deque.push_front(i).is_ok()
        } else {
            deque.push_back(i).is_ok()
        };
        if ok {
            pushed += i;
        }
        if i % 4 == 0 {
            if let Some(v) = deque.pop_front() {
                popped += v;
            }
        }
        if i % 7 == 0 {
            if let Some(v) = deque.pop_back() {
                popped += v;
            }
        }
    }
    let mut resident: u64 = 0;
    while let Some(v) = deque.pop_back() {
        resident += v;
    }
    assert_eq!(pushed, popped + resident);
}

#[test]
fn indices_wrap_round_the_ring() {
    let mut deque: LockFreeDeque<u32, 4> = LockFreeDeque::new();
    for round in 0..10u32 {
        assert!(deque.push_back(round).is_ok());
        assert!(deque.push_back(round + 100).is_ok());
        assert_eq!(deque.len(), 2);
        assert_eq!(deque.pop_front(), Some(round));
        assert_eq!(deque.pop_front(), Some(round + 100));
        assert!(deque.is_empty());
    }
    assert!(deque.push_front(1).is_ok());
    assert!(deque.push_front(2).is_ok());
    assert!(deque.push_front(3).is_ok());
    assert_eq!(deque.len(), 3);
    assert_eq!(deque.pop_back(), Some(1));
    assert_eq!(deque.pop_back(), Some(2));
    assert_eq!(deque.pop_back(), Some(3));
}

#[test]
fn capacity_is_the_number_of_cells() {
    let deque: LockFreeDeque<i32, 5> = LockFreeDeque::new();
    assert_eq!(deque.capacity(), 5);
    assert_eq!(deque.len(), 0);
}

#[test]
fn reserved_cell_is_invisible_until_committed() {
    let mut deque: LockFreeDeque<i32, 5> = LockFreeDeque::new();
    let guard = deque.push_slot_front().unwrap();
    assert_eq!(deque.len(), 1);
    assert_eq!(deque.pop_front(), None);
    assert_eq!(deque.pop_back(), None);
    deque.commit(guard, 42);
    assert_eq!(deque.pop_back(), Some(42));
    assert!(deque.is_empty());
}

#[test]
fn reserved_back_cell_keeps_its_place() {
    let mut deque: LockFreeDeque<i32, 5> = LockFreeDeque::new();
    assert!(deque.push_back(1).is_ok());
    let guard = deque.push_slot_back().unwrap();
    assert!(deque.push_front(0).is_ok());
    assert_eq!(deque.pop_back(), None);
    deque.commit(guard, 2);
    assert_eq!(deque.pop_front(), Some(0));
    assert_eq!(deque.pop_front(), Some(1));
    assert_eq!(deque.pop_front(), Some(2));
}

#[test]
fn reserving_on_a_full_deque_fails() {
    let mut deque: LockFreeDeque<i32, 3> = LockFreeDeque::new();
    assert!(deque.push_back(1).is_ok());
    assert!(deque.push_slot_back().is_ok());
    assert!(deque.push_slot_front().is_err());
    assert!(deque.push_slot_back().is_err());
    assert_eq!(deque.len(), 2);
}

#[test]
fn committed_values_are_conserved() {
    let mut deque: LockFreeDeque<u64, 8> = LockFreeDeque::new();
    let g1 = deque.push_slot_back().unwrap();
    assert!(deque.push_back(5).is_ok());
    let g2 = deque.push_slot_front().unwrap();
    deque.commit(g1, 7);
    deque.commit(g2, 11);
    let mut sum: u64 = 0;
    while let Some(v) = deque.pop_front() {
        sum += v;
    }
    assert_eq!(sum, 5 + 7 + 11);
    assert!(deque.is_empty());
}
