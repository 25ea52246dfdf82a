use kvstore::persist::{KVError, Persister};
use kvstore::slot::Slot;

#[test]
fn test_insert_kv_empty_values() {
    let mut persister = Persister::new();

    assert_eq!(Ok(()), persister.insert_kv(&"empty_value".to_string(), &vec![]));
    assert_eq!(
        Slot { cursor: 0, space: 0 },
        persister.get_slot(&"empty_value".to_string()).unwrap()
    );
    assert_eq!(0, persister.last_cursor);
}

#[test]
fn test_insert_kv_two_times_same_key() {
    let mut persister = Persister::new();

    assert_eq!(Ok(()), persister.insert_kv(&"key_duplicated".to_string(), &vec![]));
    assert_eq!(
        KVError::KeyAlreadyExist,
        persister.insert_kv(&"key_duplicated".to_string(), &vec![]).unwrap_err()
    );
    assert_eq!(0, persister.last_cursor);
}

#[test]
fn test_get_value() {
    let mut persister = Persister::new();

    let _ = persister.insert_kv(&"key1".to_string(), &vec![b'a', b'b', b'c']).unwrap();
    assert_eq!(
        vec![b'a', b'b', b'c'],
        persister.get_value(&"key1".to_string()).unwrap()
    );

    assert_eq!(
        KVError::KeyDoesNotExist,
        persister.get_value(&"non_existent_key".to_string()).unwrap_err()
    )
}

#[test]
fn test_update_value() {
    let mut persister = Persister::new();

    let _ = persister.insert_kv(&"key1".to_string(), &vec![b'a', b'c', b'd']);
    let _ = persister.update_value(&"key1".to_string(), &vec![b'e', b'f', b'g']);
    assert_eq!(3, persister.last_cursor);

    assert_eq!(
        vec![b'e', b'f', b'g'],
        persister.get_value(&"key1".to_string()).unwrap()
    );

    // delete the kv and try to update again
    let _ = persister.delete_kv(&"key1".to_string());
    assert_eq!(
        KVError::KeyDoesNotExist,
        persister.update_value(&"key1".to_string(), &vec![b'e', b'f', b'g']).unwrap_err()
    );
    assert_eq!(0, persister.last_cursor);
}

#[test]
fn test_update_value_with_more_space() {
    let mut persister = Persister::new();

    let _ = persister.insert_kv(&"key1".to_string(), &vec![b'a', b'c', b'd']);
    let _ = persister.update_value(&"key1".to_string(), &vec![b'e', b'f', b'g', b'h']);
    assert_eq!(4, persister.last_cursor);

    assert_eq!(
        vec![b'e', b'f', b'g', b'h'],
        persister.get_value(&"key1".to_string()).unwrap()
    );

    // delete the kv and try to update again
    let _ = persister.delete_kv(&"key1".to_string());
    assert_eq!(0, persister.last_cursor);
}

#[test]
fn test_update_value_with_middle_space_not_enough() {
    let mut persister = Persister::new();

    let _ = persister.insert_kv(&"key1".to_string(), &vec![b'a', b'c', b'd']);
    let _ = persister.insert_kv(&"key2".to_string(), &vec![b'e', b'f', b'g']);
    let _ = persister.insert_kv(&"key3".to_string(), &vec![b'h', b'i', b'j']);

    // try to update middle kv with a bigger value
    let _ = persister.update_value(&"key2".to_string(), &vec![b'k', b'l', b'm', b'n']);
    assert_eq!(13, persister.last_cursor);

    assert_eq!(
        vec![b'k', b'l', b'm', b'n'],
        persister.get_value(&"key2".to_string()).unwrap()
    );

    // delete the kv and try to update again
    let _ = persister.delete_kv(&"key2".to_string());
    assert_eq!(9, persister.last_cursor);
}

#[test]
fn delete_kv() {
    let mut persister = Persister::new();

    let _ = persister.insert_kv(&"key1".to_string(), &vec![b'a', b'c', b'd']);
    let _ = persister.delete_kv(&"key1".to_string());
    assert_eq!(
        KVError::KeyDoesNotExist,
        persister.get_value(&"key1".to_string()).unwrap_err()
    );

    assert_eq!(0, persister.last_cursor);
}

#[test]
fn test_insert_kv_check_free_spots() {
    // a freed middle gap is skipped by a value that does not fit and reused,
    // with a split, by one that does
    let mut persister = Persister::new();

    let _ = persister.insert_kv(&"key_1".to_string(), &vec![b'a', b'b', b'c']);
    let _ = persister.insert_kv(&"key_2".to_string(), &vec![b'd', b'e']);
    let _ = persister.insert_kv(&"key_3".to_string(), &vec![b'f', b'g', b'h']);
    assert_eq!(8, persister.last_cursor);

    // delete the middle kv
    persister.delete_kv(&"key_2".to_string()).unwrap();

    // too big for the 2-byte gap at offset 3: appended at 8
    let _ = persister.insert_kv(&"key_4".to_string(), &vec![b'i', b'j', b'k']);
    assert_eq!(8, persister.get_slot(&"key_4".to_string()).unwrap().cursor);
    assert_eq!(3, persister.get_slot(&"key_4".to_string()).unwrap().space);

    // fits in the gap: placed at 3, leaving a 1-byte free remainder at 4
    let _ = persister.insert_kv(&"key_5".to_string(), &vec![b'l']);
    assert_eq!(3, persister.get_slot(&"key_5".to_string()).unwrap().cursor);
    assert_eq!(1, persister.get_slot(&"key_5".to_string()).unwrap().space);

    assert_eq!(11, persister.last_cursor);
    assert_eq!(
        vec![b'a', b'b', b'c'],
        persister.get_value(&"key_1".to_string()).unwrap()
    );
    assert_eq!(
        vec![b'f', b'g', b'h'],
        persister.get_value(&"key_3".to_string()).unwrap()
    );
    assert_eq!(
        vec![b'i', b'j', b'k'],
        persister.get_value(&"key_4".to_string()).unwrap()
    );
    assert_eq!(vec![b'l'], persister.get_value(&"key_5".to_string()).unwrap());
}

#[test]
fn test_delete_then_insert_same_length_reuses_offset() {
    // deleting a key and inserting a value of exactly the freed length
    // reuses the freed offset and never grows the cursor
    let mut persister = Persister::new();
    let _ = persister.insert_kv(&"first".to_string(), &vec![b'x', b'y', b'z']);
    let _ = persister.insert_kv(&"second".to_string(), &vec![b'u', b'v']);
    assert_eq!(5, persister.last_cursor);

    persister.delete_kv(&"first".to_string()).unwrap();
    let _ = persister.insert_kv(&"third".to_string(), &vec![b'1', b'2', b'3']);
    assert_eq!(0, persister.get_slot(&"third".to_string()).unwrap().cursor);
    assert_eq!(5, persister.last_cursor);
    assert_eq!(
        vec![b'1', b'2', b'3'],
        persister.get_value(&"third".to_string()).unwrap()
    );
    assert_eq!(
        vec![b'u', b'v'],
        persister.get_value(&"second".to_string()).unwrap()
    );
}

#[test]
fn test_errors_mutate_nothing() {
    let mut persister = Persister::new();
    let _ = persister.insert_kv(&"stay".to_string(), &vec![b'o', b'k']);

    // inserting the same key twice fails and leaves the first entry untouched
    assert_eq!(
        KVError::KeyAlreadyExist,
        persister.insert_kv(&"stay".to_string(), &vec![b'n', b'o']).unwrap_err()
    );
    assert_eq!(vec![b'o', b'k'], persister.get_value(&"stay".to_string()).unwrap());
    assert_eq!(2, persister.last_cursor);

    // operations on an unknown key fail and mutate nothing
    assert_eq!(
        KVError::KeyDoesNotExist,
        persister.get_value(&"ghost".to_string()).unwrap_err()
    );
    assert_eq!(
        KVError::KeyDoesNotExist,
        persister.update_value(&"ghost".to_string(), &vec![b'x']).unwrap_err()
    );
    assert_eq!(
        KVError::KeyDoesNotExist,
        persister.delete_kv(&"ghost".to_string()).unwrap_err()
    );
    assert_eq!(2, persister.last_cursor);
    assert_eq!(None, persister.get_slot(&"ghost".to_string()));
    assert_eq!(vec![b'o', b'k'], persister.get_value(&"stay".to_string()).unwrap());
}

#[test]
fn test_round_trip_including_empty() {
    let mut persister = Persister::new();
    let _ = persister.insert_kv(&"empty".to_string(), &vec![]);
    let _ = persister.insert_kv(&"one".to_string(), &vec![b'z']);
    let _ = persister.insert_kv(&"many".to_string(), &vec![0u8, 255u8, 7u8, 7u8]);
    assert_eq!(Vec::<u8>::new(), persister.get_value(&"empty".to_string()).unwrap());
    assert_eq!(vec![b'z'], persister.get_value(&"one".to_string()).unwrap());
    assert_eq!(
        vec![0u8, 255u8, 7u8, 7u8],
        persister.get_value(&"many".to_string()).unwrap()
    );
}

#[test]
fn test_update_to_empty_and_back() {
    let mut persister = Persister::new();
    let _ = persister.insert_kv(&"a".to_string(), &vec![b'1', b'2']);
    let _ = persister.insert_kv(&"b".to_string(), &vec![b'3']);
    assert_eq!(3, persister.last_cursor);

    // shrink to the empty value: the key stays, its whole range is freed
    let _ = persister.update_value(&"a".to_string(), &vec![]);
    assert_eq!(0, persister.get_slot(&"a".to_string()).unwrap().space);
    assert_eq!(Vec::<u8>::new(), persister.get_value(&"a".to_string()).unwrap());
    assert_eq!(3, persister.last_cursor);

    // grow it again: the freed range is reused
    let _ = persister.update_value(&"a".to_string(), &vec![b'7', b'8']);
    assert_eq!(0, persister.get_slot(&"a".to_string()).unwrap().cursor);
    assert_eq!(3, persister.last_cursor);
    assert_eq!(vec![b'7', b'8'], persister.get_value(&"a".to_string()).unwrap());
    assert_eq!(vec![b'3'], persister.get_value(&"b".to_string()).unwrap());
}

#[test]
fn test_update_shrink_releases_remainder() {
    let mut persister = Persister::new();
    let _ = persister.insert_kv(&"a".to_string(), &vec![b'1', b'2', b'3', b'4']);
    let _ = persister.insert_kv(&"b".to_string(), &vec![b'5', b'6']);
    assert_eq!(6, persister.last_cursor);

    // shrink the first value: it keeps offset 0 and frees [1, 4)
    let _ = persister.update_value(&"a".to_string(), &vec![b'9']);
    assert_eq!(0, persister.get_slot(&"a".to_string()).unwrap().cursor);
    assert_eq!(1, persister.get_slot(&"a".to_string()).unwrap().space);
    assert_eq!(6, persister.last_cursor);

    // the freed remainder is reused by the next fitting insert
    let _ = persister.insert_kv(&"c".to_string(), &vec![b'7', b'8']);
    assert_eq!(1, persister.get_slot(&"c".to_string()).unwrap().cursor);
    assert_eq!(6, persister.last_cursor);
    assert_eq!(vec![b'9'], persister.get_value(&"a".to_string()).unwrap());
    assert_eq!(vec![b'5', b'6'], persister.get_value(&"b".to_string()).unwrap());
    assert_eq!(vec![b'7', b'8'], persister.get_value(&"c".to_string()).unwrap());
}
