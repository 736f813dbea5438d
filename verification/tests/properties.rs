use cdl_list_rs::cdl_list::CdlList;

#[test]
fn scenario_new_list() {
    let mut list: CdlList<u32> = CdlList::new();
    assert!(list.is_empty());
    assert_eq!(list.pop_front(), None);
    assert_eq!(list.pop_back(), None);
}

#[test]
fn scenario_push_peek_pop() {
    let mut list: CdlList<u32> = CdlList::new();
    list.push_back(1);
    list.push_back(2);
    list.push_back(3);
    assert_eq!(*list.peek_front().unwrap(), 1);
    assert_eq!(*list.peek_back().unwrap(), 3);
    assert_eq!(list.size(), 3);

    assert_eq!(list.pop_front(), Some(1));
    assert_eq!(list.pop_back(), Some(3));
    assert_eq!(list.pop_front(), Some(2));
    assert!(list.is_empty());
}

#[test]
fn scenario_insert_middle() {
    let mut list: CdlList<u32> = CdlList::new();
    list.push_back(1);
    list.push_back(2);
    list.push_back(4);
    list.insert_at(2, 3);
    assert_eq!(list.to_vec(), vec![1, 2, 3, 4]);
}

#[test]
fn scenario_remove_at_ends() {
    let mut list: CdlList<u32> = CdlList::new();
    for v in 1..=8 {
        list.push_back(v);
    }
    assert_eq!(list.remove_at(list.size() - 1), Some(8));
    assert_eq!(list.remove_at(0), Some(1));
    assert_eq!(list.remove_at(list.size() - 1), Some(7));
    assert_eq!(list.to_vec(), vec![2, 3, 4, 5, 6]);
}

#[test]
fn scenario_insert_out_of_range() {
    let mut list: CdlList<u32> = CdlList::new();
    list.push_back(10);
    list.push_back(20);
    list.insert_at(list.size() + 1, 99);
    assert_eq!(list.size(), 2);
    assert_eq!(list.to_vec(), vec![10, 20]);

    // On an empty list, any index above zero is out of range too.
    let mut empty: CdlList<u32> = CdlList::new();
    empty.insert_at(1, 99);
    assert!(empty.is_empty());
}

#[test]
fn prop_size_tracks_pushes_and_pops() {
    // size() equals the number of pushes minus the number of successful
    // pops, over an arbitrary interleaving; failed pops do not count.
    let mut list: CdlList<i32> = CdlList::new();
    let mut pushes: usize = 0;
    let mut ok_pops: usize = 0;

    assert!(list.pop_front().is_none()); // failed pop: no change
    list.push_front(1);
    pushes += 1;
    list.push_back(2);
    pushes += 1;
    list.push_front(3);
    pushes += 1;
    if list.pop_back().is_some() {
        ok_pops += 1;
    }
    list.push_back(4);
    pushes += 1;
    if list.pop_front().is_some() {
        ok_pops += 1;
    }
    if list.pop_front().is_some() {
        ok_pops += 1;
    }
    if list.pop_front().is_some() {
        ok_pops += 1;
    }
    assert!(list.pop_back().is_none()); // failed pop: no change

    assert_eq!(list.size(), pushes - ok_pops);
    assert_eq!(list.is_empty(), list.size() == 0);
}

#[test]
fn prop_round_trip_order() {
    // Pushing v1..vn at the back and popping from the front yields v1..vn.
    let values = [11, 22, 33, 44, 55];
    let mut list: CdlList<i32> = CdlList::new();
    for v in values {
        list.push_back(v);
    }
    for v in values {
        assert_eq!(list.pop_front(), Some(v));
    }
    assert!(list.is_empty());

    // Pushing at the front and popping from the front yields the reverse.
    for v in values {
        list.push_front(v);
    }
    for v in values.iter().rev() {
        assert_eq!(list.pop_front(), Some(*v));
    }
    assert!(list.is_empty());
}

#[test]
fn prop_peek_preserves_contents() {
    let mut list: CdlList<u32> = CdlList::new();
    list.push_back(7);
    list.push_back(8);
    list.push_back(9);

    let before = list.to_vec();
    let size_before = list.size();
    assert_eq!(*list.peek_front().unwrap(), 7);
    assert_eq!(*list.peek_back().unwrap(), 9);
    assert_eq!(list.size(), size_before);
    assert_eq!(list.to_vec(), before);
}

#[test]
fn prop_insert_then_remove_identity() {
    // insert_at(i, v) followed by remove_at(i) restores the list, for
    // every valid position i (both ends included).
    let base = [1, 2, 3, 4];
    for i in 0..=base.len() {
        let mut list: CdlList<i32> = CdlList::new();
        for v in base {
            list.push_back(v);
        }
        list.insert_at(i, 99);
        assert_eq!(list.size(), base.len() + 1);
        assert_eq!(list.remove_at(i), Some(99));
        assert_eq!(list.size(), base.len());
        assert_eq!(list.to_vec(), vec![1, 2, 3, 4]);
    }
}

#[test]
fn prop_clear_empties() {
    let mut list: CdlList<u32> = CdlList::new();
    for v in 0..10 {
        list.push_back(v);
    }
    list.clear();
    assert!(list.is_empty());
    assert_eq!(list.size(), 0);
    assert!(list.peek_front().is_none());

    // The list is usable again after a teardown: slots are reused.
    list.push_back(5);
    assert_eq!(list.to_vec(), vec![5]);
}

#[test]
fn prop_to_vec_walks_in_order() {
    let mut list: CdlList<u32> = CdlList::new();
    assert_eq!(list.to_vec(), Vec::<u32>::new());
    list.push_front(2);
    list.push_back(3);
    list.push_front(1);
    assert_eq!(list.to_vec(), vec![1, 2, 3]);
}

#[test]
fn prop_mixed_operations_consistent() {
    // A longer interleaving of all mutating operations, checking the whole
    // contents after each step; this exercises the link rewrites around
    // both ends, the one-element special cases, and slot reuse.
    let mut list: CdlList<i32> = CdlList::new();
    list.push_back(2);
    assert_eq!(list.to_vec(), vec![2]);
    list.push_front(1);
    assert_eq!(list.to_vec(), vec![1, 2]);
    list.push_back(3);
    assert_eq!(list.to_vec(), vec![1, 2, 3]);
    assert_eq!(list.remove_at(1), Some(2));
    assert_eq!(list.to_vec(), vec![1, 3]);
    list.insert_at(1, 5);
    assert_eq!(list.to_vec(), vec![1, 5, 3]);
    assert_eq!(list.pop_back(), Some(3));
    assert_eq!(list.to_vec(), vec![1, 5]);
    assert_eq!(list.pop_front(), Some(1));
    assert_eq!(list.to_vec(), vec![5]);
    assert_eq!(list.pop_front(), Some(5));
    assert_eq!(list.to_vec(), Vec::<i32>::new());
    list.push_front(8);
    assert_eq!(list.to_vec(), vec![8]);
}
