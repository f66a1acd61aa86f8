use libvqueue::{SlotArray, SlotRef};

#[test]
fn test_sequential() {
    let mut array: SlotArray<usize, 4> = SlotArray::new();
    let slot1 = array.push(10).unwrap();
    let slot2 = array.push(20).unwrap();
    let slot3 = array.push(30).unwrap();
    let slot4 = array.push(40).unwrap();
    let should_err = array.push(50);
    assert_eq!(*slot1.get(&array), 10);
    assert_eq!(*slot2.get(&array), 20);
    assert_eq!(*slot3.get(&array), 30);
    assert_eq!(*slot4.get(&array), 40);
    assert!(should_err.is_err());

    let slot1_clone = slot1.share(&mut array);
    assert_eq!(*slot1_clone.get(&array), 10);

    slot1.release(&mut array);
    assert_eq!(*slot1_clone.get(&array), 10);

    slot1_clone.release(&mut array);
    // At this point, the slot for 10 should be deleted.

    let slot6 = array.push(60).unwrap();
    assert_eq!(*slot6.get(&array), 60);
}

#[test]
fn freed_cell_is_reused_at_lowest_index() {
    let mut array: SlotArray<usize, 4> = SlotArray::new();
    let h1 = array.push(10).unwrap();
    let _h2 = array.push(20).unwrap();
    let _h3 = array.push(30).unwrap();
    let _h4 = array.push(40).unwrap();
    assert!(array.push(50).is_err());
    let h1b = h1.share(&mut array);
    h1.release(&mut array);
    assert_eq!(array.get(0), Some(&10));
    h1b.release(&mut array);
    assert_eq!(array.get(0), None);
    let h6 = array.push(60).unwrap();
    assert_eq!(h6.into_id(), 0);
}

#[test]
fn fill_to_capacity_then_one_more_is_full() {
    let mut array: SlotArray<u32, 3> = SlotArray::new();
    for i in 0..3u32 {
        let h = array.push(i).unwrap();
        assert_eq!(h.into_id(), i as usize);
    }
    assert!(array.push(3).is_err());
    assert_eq!(array.get(2), Some(&2));
}

#[test]
fn id_round_trip_keeps_value_and_count() {
    let mut array: SlotArray<u64, 4> = SlotArray::new();
    let _a = array.push(5).unwrap();
    let b = array.push(7).unwrap();
    let id = b.into_id();
    assert_eq!(id, 1);
    let b2 = SlotRef::from_id(id);
    assert_eq!(*b2.get(&array), 7);
    // The count is still one: releasing the rebuilt handle empties the cell.
    b2.release(&mut array);
    assert_eq!(array.get(1), None);
}

#[test]
fn share_then_release_leaves_the_count() {
    let mut array: SlotArray<u64, 2> = SlotArray::new();
    let h = array.push(9).unwrap();
    let extra = h.share(&mut array);
    extra.release(&mut array);
    assert_eq!(array.get(0), Some(&9));
    h.release(&mut array);
    assert_eq!(array.get(0), None);
}

#[test]
fn get_on_empty_cell_is_none() {
    let array: SlotArray<u64, 2> = SlotArray::new();
    assert_eq!(array.get(0), None);
    assert_eq!(array.get(1), None);
}

#[test]
fn get_mut_changes_the_value_in_place() {
    let mut array: SlotArray<u64, 2> = SlotArray::new();
    let _a = array.push(1).unwrap();
    let b = array.push(2).unwrap();
    *b.get_mut(&mut array) = 22;
    assert_eq!(array.get(0), Some(&1));
    assert_eq!(*b.get(&array), 22);
}
