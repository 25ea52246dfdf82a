use kvstore::freelist::FreeList;
use kvstore::slot::Slot;

#[test]
fn test_new_from_index() {
    // occupied slots leave a leading gap and one gap between them
    let free_list = FreeList::new_from_index(vec![
        Slot { space: 3, cursor: 2 },
        Slot { space: 4, cursor: 8 },
    ]);
    assert_eq!(
        free_list.list,
        vec![Slot { space: 2, cursor: 0 }, Slot { space: 3, cursor: 5 }]
    );
    assert_eq!(5, free_list.total_free_space);

    // contiguous occupied slots leave nothing
    let free_list = FreeList::new_from_index(vec![
        Slot { space: 3, cursor: 0 },
        Slot { space: 2, cursor: 3 },
    ]);
    assert_eq!(free_list.list, vec![]);
    assert_eq!(0, free_list.total_free_space);

    // no occupied slots leave nothing
    let free_list = FreeList::new_from_index(vec![]);
    assert_eq!(free_list.list, vec![]);
    assert_eq!(0, free_list.total_free_space);
}

#[test]
fn test_insert_free_space() {
    // insert one element
    let mut free_list = FreeList::new();
    free_list.insert_free_space(0, 10);
    assert_eq!(free_list.list, vec![Slot { space: 10, cursor: 0 }]);

    // insert free space at the beginning
    free_list.insert_free_space(10, 5);
    assert_eq!(
        free_list.list,
        vec![Slot { space: 5, cursor: 10 }, Slot { space: 10, cursor: 0 }]
    );

    // insert free space at the end
    free_list.insert_free_space(20, 80);
    assert_eq!(
        free_list.list,
        vec![
            Slot { space: 5, cursor: 10 },
            Slot { space: 10, cursor: 0 },
            Slot { space: 80, cursor: 20 },
        ]
    );

    // insert same space but different cursor
    free_list.insert_free_space(30, 8);
    assert_eq!(
        free_list.list,
        vec![
            Slot { space: 5, cursor: 10 },
            Slot { space: 8, cursor: 30 },
            Slot { space: 10, cursor: 0 },
            Slot { space: 80, cursor: 20 },
        ]
    );

    // insert cursor already present in the list with different space (should not happen in theory)
    free_list.insert_free_space(0, 11);
    assert_eq!(
        free_list.list,
        vec![
            Slot { space: 5, cursor: 10 },
            Slot { space: 8, cursor: 30 },
            Slot { space: 10, cursor: 0 },
            Slot { space: 11, cursor: 0 },
            Slot { space: 80, cursor: 20 },
        ]
    );

    // insert same space and same cursor (can't happen in theory)
    free_list.insert_free_space(10, 5);
    assert_eq!(
        free_list.list,
        vec![
            Slot { space: 5, cursor: 10 },
            Slot { space: 5, cursor: 10 },
            Slot { space: 8, cursor: 30 },
            Slot { space: 10, cursor: 0 },
            Slot { space: 11, cursor: 0 },
            Slot { space: 80, cursor: 20 },
        ]
    );
}

#[test]
fn test_retrieve_free_space() {
    let mut free_list = FreeList::new();

    // retrieve free space when there are no values stored
    assert_eq!(free_list.retrieve_free_space(7), None);

    // retrieve more space than available
    free_list.insert_free_space(15, 5);
    assert_eq!(free_list.retrieve_free_space(6), None);

    // retrieve space that matches the exact same space
    free_list.insert_free_space(20, 12);
    assert_eq!(free_list.retrieve_free_space(12), Some(20));
    assert_eq!(free_list.list, vec![Slot { space: 5, cursor: 15 }]);

    // pick the smaller space available
    free_list.insert_free_space(10, 300);
    assert_eq!(free_list.retrieve_free_space(5), Some(15));
    assert_eq!(free_list.list, vec![Slot { space: 300, cursor: 10 }]);

    // subtract the remaining space when space asked < space available
    assert_eq!(free_list.retrieve_free_space(1), Some(10));
    assert_eq!(free_list.list, vec![Slot { space: 299, cursor: 11 }]);
}

#[test]
fn test_compact() {
    let mut free_list = FreeList::new();

    // try to compact empty list
    free_list.compact();

    // insert 1 free space and try to compact
    free_list.insert_free_space(0, 10);
    free_list.compact();
    assert_eq!(free_list.list, vec![Slot { space: 10, cursor: 0 }]);

    // insert 1 more free space that is not neighbour and try to compact
    free_list.insert_free_space(30, 11);
    free_list.compact();
    assert_eq!(
        free_list.list,
        vec![Slot { space: 10, cursor: 0 }, Slot { space: 11, cursor: 30 }]
    );

    // insert one new element that is neighbour of the first free space
    free_list.insert_free_space(10, 5);
    free_list.compact();
    assert_eq!(
        free_list.list,
        vec![Slot { space: 11, cursor: 30 }, Slot { space: 15, cursor: 0 }]
    );

    // try merge of 5 elements at the same time
    free_list.insert_free_space(15, 10);
    free_list.insert_free_space(25, 4);
    free_list.insert_free_space(29, 1);
    free_list.insert_free_space(41, 2);
    free_list.compact();
    assert_eq!(free_list.list, vec![Slot { space: 43, cursor: 0 }]);

    // not merge by one single space
    free_list.insert_free_space(44, 1);
    free_list.compact();
    assert_eq!(
        free_list.list,
        vec![Slot { space: 1, cursor: 44 }, Slot { space: 43, cursor: 0 }]
    );
}

#[test]
fn test_retrieve_equal_or_bigger_than() {
    let mut free_list = FreeList::new();
    free_list.insert_free_space(0, 10);
    free_list.insert_free_space(15, 5);

    // retrieve free space that is equal to the requested size
    assert_eq!(
        free_list.retrieve_equal_or_bigger_than(&Slot { space: 10, cursor: 0 }),
        Some(Slot { space: 10, cursor: 0 })
    );
    assert_eq!(free_list.list, vec![Slot { space: 5, cursor: 15 }]);

    // retrieve free space that is bigger than the requested size
    assert_eq!(
        free_list.retrieve_equal_or_bigger_than(&Slot { space: 12, cursor: 0 }),
        None
    );
    assert_eq!(free_list.list, vec![Slot { space: 5, cursor: 15 }]);

    // retrieve  space that is smaller than available and make sure that the space
    // remaining is reinserted and updated
    assert_eq!(
        free_list.retrieve_equal_or_bigger_than(&Slot { space: 1, cursor: 0 }),
        Some(Slot { space: 1, cursor: 15 })
    );
    assert_eq!(free_list.list, vec![Slot { space: 4, cursor: 16 }])
}

#[test]
fn test_retrieve_prefers_lowest_offset_on_ties() {
    // among equal-sized fits the slot at the lowest offset is taken
    let mut free_list = FreeList::new();
    free_list.insert_free_space(50, 4);
    free_list.insert_free_space(10, 4);
    assert_eq!(
        free_list.list,
        vec![Slot { space: 4, cursor: 10 }, Slot { space: 4, cursor: 50 }]
    );
    assert_eq!(Some(10), free_list.retrieve_free_space(4));
    assert_eq!(free_list.list, vec![Slot { space: 4, cursor: 50 }]);
}

#[test]
fn test_compact_twice_is_same_as_once() {
    // compaction applied twice in a row yields the same free list as once
    let mut free_list = FreeList::new();
    free_list.insert_free_space(0, 4);
    free_list.insert_free_space(4, 6);
    free_list.insert_free_space(12, 3);
    free_list.insert_free_space(20, 5);
    free_list.compact();
    let after_once = free_list.list.clone();
    let total_once = free_list.total_free_space;
    free_list.compact();
    assert_eq!(after_once, free_list.list);
    assert_eq!(total_once, free_list.total_free_space);
    assert_eq!(
        free_list.list,
        vec![
            Slot { space: 3, cursor: 12 },
            Slot { space: 5, cursor: 20 },
            Slot { space: 10, cursor: 0 },
        ]
    );
}

#[test]
fn test_total_free_space_tracks_sum() {
    let mut free_list = FreeList::new();
    assert_eq!(0, free_list.total_free_space);
    free_list.insert_free_space(0, 10);
    free_list.insert_free_space(12, 7);
    assert_eq!(17, free_list.total_free_space);
    assert_eq!(Some(12), free_list.retrieve_free_space(5));
    assert_eq!(12, free_list.total_free_space);
    free_list.compact();
    assert_eq!(12, free_list.total_free_space);
}

#[test]
fn test_slot_neighbours_and_merge() {
    let a = Slot { space: 5, cursor: 0 };
    let b = Slot { space: 3, cursor: 5 };
    let c = Slot { space: 2, cursor: 9 };
    assert!(a.is_neighbour_of(&b));
    assert!(b.is_neighbour_of(&a));
    assert!(!a.is_neighbour_of(&c));
    assert_eq!(Slot { space: 8, cursor: 0 }, a.merge_with(&b));
    assert_eq!(Slot { space: 8, cursor: 0 }, b.merge_with(&a));
}
