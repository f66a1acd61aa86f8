use libvqueue::{
    map_add_entry, map_get_ntf_id, map_pop_ntf_id, pop, push, register_queue, set_pid, IPCItem,
    PerProcess, QueueArray, SlotArray, SlotRef, ARRAY_LEN, QUEUE_LEN, SENTINEL_ANY,
};

fn item(sender: u64, msg_type: u64, fill: u64) -> IPCItem {
    IPCItem { sender, msg_type, reply_type: 0, data: [fill; 8] }
}

fn fresh_root() -> QueueArray {
    SlotArray::new()
}

#[test]
fn test_constants() {
    println!("QUEUE_LEN: {}", QUEUE_LEN);
    println!("ARRAY_LEN: {}", ARRAY_LEN);
}

#[test]
fn scenario_routes_with_wildcard() {
    let mut p = PerProcess::new();
    assert_eq!(p.add_route(5, 100), Ok(()));
    assert_eq!(p.add_route(SENTINEL_ANY, 999), Ok(()));
    assert_eq!(p.get_ntf(5), Some(100));
    assert_eq!(p.get_ntf(7), Some(999));
    assert_eq!(p.pop_route(5), Some(100));
    assert_eq!(p.get_ntf(5), Some(999));
}

#[test]
fn wildcard_alone_answers_every_type() {
    let mut p = PerProcess::new();
    assert_eq!(p.add_route(SENTINEL_ANY, 42), Ok(()));
    assert_eq!(p.get_ntf(0), Some(42));
    assert_eq!(p.get_ntf(123), Some(42));
    assert_eq!(p.get_ntf(SENTINEL_ANY), Some(42));
}

#[test]
fn lower_cell_wins_between_wildcard_and_specific() {
    let mut p = PerProcess::new();
    assert_eq!(p.add_route(SENTINEL_ANY, 1), Ok(()));
    assert_eq!(p.add_route(8, 2), Ok(()));
    assert_eq!(p.get_ntf(8), Some(1));

    let mut q = PerProcess::new();
    assert_eq!(q.add_route(8, 2), Ok(()));
    assert_eq!(q.add_route(SENTINEL_ANY, 1), Ok(()));
    assert_eq!(q.get_ntf(8), Some(2));
    assert_eq!(q.get_ntf(9), Some(1));
}

#[test]
fn lookup_without_routes_is_none() {
    let mut p = PerProcess::new();
    assert_eq!(p.get_ntf(5), None);
    assert_eq!(p.add_route(6, 60), Ok(()));
    assert_eq!(p.get_ntf(5), None);
    assert_eq!(p.pop_route(5), None);
}

#[test]
fn pop_route_ignores_the_wildcard() {
    let mut p = PerProcess::new();
    assert_eq!(p.add_route(SENTINEL_ANY, 9), Ok(()));
    assert_eq!(p.pop_route(3), None);
    assert_eq!(p.get_ntf(3), Some(9));
}

#[test]
fn add_then_pop_restores_the_table() {
    let mut root = fresh_root();
    let id = register_queue(&mut root).unwrap().into_id();
    assert_eq!(map_add_entry(&mut root, id, 1, 10), Ok(()));
    assert_eq!(map_add_entry(&mut root, id, 2, 20), Ok(()));
    assert_eq!(map_add_entry(&mut root, id, 3, 30), Ok(()));
    assert_eq!(map_pop_ntf_id(&mut root, id, 3), Some(30));
    assert_eq!(map_get_ntf_id(&root, id, 3), None);
    assert_eq!(map_get_ntf_id(&root, id, 1), Some(10));
    assert_eq!(map_get_ntf_id(&root, id, 2), Some(20));
    // The freed cell is the lowest empty one again.
    assert_eq!(map_add_entry(&mut root, id, 4, 40), Ok(()));
    assert_eq!(map_pop_ntf_id(&mut root, id, 4), Some(40));
    assert_eq!(map_pop_ntf_id(&mut root, id, 4), None);
}

#[test]
fn route_table_full_is_an_error() {
    let mut p = PerProcess::new();
    for i in 0..ARRAY_LEN as u64 {
        assert_eq!(p.add_route(i, i + 1000), Ok(()));
    }
    assert_eq!(p.add_route(7777, 1), Err(()));
    assert_eq!(p.get_ntf(7777), None);
    assert_eq!(p.pop_route(0), Some(1000));
    assert_eq!(p.add_route(7777, 1), Ok(()));
    assert_eq!(p.get_ntf(7777), Some(1));
}

#[test]
fn register_gives_lowest_ids_until_full() {
    let mut root = fresh_root();
    for i in 0..ARRAY_LEN {
        let h = register_queue(&mut root).unwrap();
        assert_eq!(h.into_id(), i);
    }
    assert!(register_queue(&mut root).is_err());
}

#[test]
fn mailbox_is_first_in_first_out() {
    let mut root = fresh_root();
    let id = register_queue(&mut root).unwrap().into_id();
    assert!(pop(&mut root, id).is_none());
    assert!(push(&mut root, id, item(1, 10, 100)).is_ok());
    assert!(push(&mut root, id, item(2, 20, 200)).is_ok());
    let first = pop(&mut root, id).unwrap();
    assert_eq!(first.sender, 1);
    assert_eq!(first.msg_type, 10);
    assert_eq!(first.data, [100; 8]);
    let second = pop(&mut root, id).unwrap();
    assert_eq!(second.sender, 2);
    assert!(pop(&mut root, id).is_none());
}

#[test]
fn mailboxes_are_independent() {
    let mut root = fresh_root();
    let a = register_queue(&mut root).unwrap().into_id();
    let b = register_queue(&mut root).unwrap().into_id();
    assert!(push(&mut root, a, item(1, 0, 1)).is_ok());
    assert!(pop(&mut root, b).is_none());
    assert_eq!(pop(&mut root, a).unwrap().sender, 1);
}

#[test]
fn full_mailbox_hands_back_the_message() {
    let mut root = fresh_root();
    let id = register_queue(&mut root).unwrap().into_id();
    for i in 0..QUEUE_LEN as u64 {
        assert!(push(&mut root, id, item(i, 0, i)).is_ok());
    }
    let back = push(&mut root, id, item(4242, 3, 9)).unwrap_err();
    assert_eq!(back.sender, 4242);
    assert_eq!(back.msg_type, 3);
    assert_eq!(back.data, [9; 8]);
    assert_eq!(pop(&mut root, id).unwrap().sender, 0);
}

#[test]
fn set_pid_is_recorded() {
    let mut root = fresh_root();
    let id = register_queue(&mut root).unwrap().into_id();
    assert_eq!(SlotRef::from_id(id).get(&root).pid(), 0);
    set_pid(&mut root, id, 1234);
    let h = SlotRef::from_id(id);
    assert_eq!(h.get(&root).pid(), 1234);
    assert_eq!(h.into_id(), id);
}

#[test]
fn releasing_the_last_handle_frees_the_record() {
    let mut root = fresh_root();
    let h = register_queue(&mut root).unwrap();
    let id = h.into_id();
    assert!(push(&mut root, id, item(1, 0, 0)).is_ok());
    SlotRef::from_id(id).release(&mut root);
    assert!(root.get(id).is_none());
    let again = register_queue(&mut root).unwrap().into_id();
    assert_eq!(again, id);
    assert!(pop(&mut root, again).is_none());
}
