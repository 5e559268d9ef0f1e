use iblt::InvertibleBloomLookupTable;
use std::collections::hash_map::DefaultHasher;
use std::hash::Hash;
use std::hash::Hasher;

#[test]
fn iblt_constructor_with_zero_size_fails() {
    assert!(InvertibleBloomLookupTable::new(0, 1).is_none());
}

#[test]
fn iblt_constructor_with_zero_or_one_area_count_fails() {
    assert!(InvertibleBloomLookupTable::new(1, 0).is_none());
    assert!(InvertibleBloomLookupTable::new(1, 1).is_none());
}

#[test]
fn iblt_constructor_with_size_not_divisible_with_area_count_fails() {
    assert!(InvertibleBloomLookupTable::new(3, 2).is_none());
    assert!(InvertibleBloomLookupTable::new(5, 3).is_none());
}

#[test]
fn iblt_constructor() {
    for i in 2..4 {
        assert!(InvertibleBloomLookupTable::new(i * i, i as u8).is_some());
    }
}

#[test]
fn iblt_too_high_hash_index() {
    let area_count = 16;
    let table = InvertibleBloomLookupTable::new(256, area_count).unwrap();
    assert!(table.hash(16, 17).is_err());
    assert!(table.hash(17, 17).is_err());
}

#[test]
fn iblt_hash_in_area() {
    for i in 0..7 {
        let area_count = 2u8.pow(i + 1) as u8;
        let area_size = 256 / area_count as u32;
        let table = InvertibleBloomLookupTable::new(256, area_count).unwrap();
        let value = i * i;
        let mut hasher = DefaultHasher::new();
        value.hash(&mut hasher);
        assert_eq!(
            table.hash(i as u8, (i * i) as u32).unwrap(),
            (hasher.finish() % area_size as u64 + i as u64 * area_size as u64) as usize
        );
        assert!(
            table.hash(i as u8, (i * i) as u32).unwrap() < ((i as usize + 1) * (area_size as usize))
        );
        assert!(
            table.hash(i as u8, (i * i) as u32).unwrap() >= ((i as usize) * (area_size as usize))
        );
    }
}

#[test]
fn iblt_try_to_get_a_value_from_empty_table() {
    let table = InvertibleBloomLookupTable::new(256, 8).unwrap();
    assert!(table.get(3).is_err());
}

#[test]
fn iblt_insert_and_get_the_value() {
    let mut table = InvertibleBloomLookupTable::new(256, 8).unwrap();
    assert!(table.insert(3, 5).is_ok());
    assert_eq!(table.get(3).ok().unwrap(), 5);
}

#[test]
fn iblt_try_to_remove_a_value_from_an_empty_table() {
    let mut table = InvertibleBloomLookupTable::new(256, 8).unwrap();
    assert!(table.delete(3, 5).is_err());
}

#[test]
fn iblt_insert_remove_and_get_the_value() {
    let mut table = InvertibleBloomLookupTable::new(256, 8).unwrap();
    assert!(table.insert(3, 5).is_ok());
    assert!(table.delete(3, 5).is_ok());
    assert!(table.get(3).is_err());
}

#[test]
fn iblt_insert_one_items_and_get_list_entries() {
    let mut table = InvertibleBloomLookupTable::new(256, 8).unwrap();
    assert!(table.insert(4, 6).is_ok());
    let results = table.list_entries().ok().unwrap();
    assert_eq!(results.key_pairs.len(), 1);
    for output in results.key_pairs {
        if output.key_sum == 4 {
            assert_eq!(output.value_sum, 6);
        }
    }
}

#[test]
fn iblt_insert_two_items_and_get_list_entries() {
    let mut table = InvertibleBloomLookupTable::new(256, 8).unwrap();
    assert!(table.insert(4, 6).is_ok());
    assert!(table.insert(5, 7).is_ok());
    let results = table.list_entries().ok().unwrap();
    assert_eq!(results.key_pairs.len(), 2);
    for output in results.key_pairs {
        if output.key_sum == 4 {
            assert_eq!(output.value_sum, 6);
        } else if output.key_sum == 5 {
            assert_eq!(output.value_sum, 7);
        }
    }
}

#[test]
fn iblt_insert_three_items_and_get_list_entries() {
    let mut table = InvertibleBloomLookupTable::new(256, 8).unwrap();
    assert!(table.insert(3, 5).is_ok());
    assert!(table.insert(4, 6).is_ok());
    assert!(table.insert(5, 7).is_ok());
    let results = table.list_entries().ok().unwrap();
    assert_eq!(results.key_pairs.len(), 3);
    for output in results.key_pairs {
        if output.key_sum == 3 {
            assert_eq!(output.value_sum, 5);
        } else if output.key_sum == 4 {
            assert_eq!(output.value_sum, 6);
        } else if output.key_sum == 5 {
            assert_eq!(output.value_sum, 7);
        }
    }
}

#[test]
fn lib_constructor_with_zero_size_fails() {
    assert!(InvertibleBloomLookupTable::new(0, 1).is_none());
}

#[test]
fn lib_constructor_with_zero_or_one_area_count_fails() {
    assert!(InvertibleBloomLookupTable::new(1, 0).is_none());
    assert!(InvertibleBloomLookupTable::new(1, 1).is_none());
}

#[test]
fn lib_constructor_with_size_not_divisible_with_area_count_fails() {
    assert!(InvertibleBloomLookupTable::new(3, 2).is_none());
    assert!(InvertibleBloomLookupTable::new(5, 3).is_none());
}

#[test]
fn lib_constructor() {
    for i in 2..4 {
        assert!(InvertibleBloomLookupTable::new(i * i, i as u8).is_some());
    }
}

#[test]
fn lib_too_high_hash_index() {
    let area_count = 16;
    let table = InvertibleBloomLookupTable::new(256, area_count).unwrap();
    assert!(table.hash(16, 17).is_err());
    assert!(table.hash(17, 17).is_err());
}

#[test]
fn lib_hash_in_area() {
    for i in 0..7 {
        let area_count = 2u8.pow(i + 1) as u8;
        let area_size = 256 / area_count as u32;
        let table = InvertibleBloomLookupTable::new(256, area_count).unwrap();
        let value = i * i;
        let mut hasher = DefaultHasher::new();
        value.hash(&mut hasher);
        assert_eq!(
            table.hash(i as u8, (i * i) as u32).unwrap(),
            (hasher.finish() % area_size as u64 + i as u64 * area_size as u64) as usize
        );
        assert!(
            table.hash(i as u8, (i * i) as u32).unwrap() < ((i as usize + 1) * (area_size as usize))
        );
        assert!(
            table.hash(i as u8, (i * i) as u32).unwrap() >= ((i as usize) * (area_size as usize))
        );
    }
}

#[test]
fn lib_try_to_get_a_value_from_empty_table() {
    let table = InvertibleBloomLookupTable::new(256, 8).unwrap();
    assert!(table.get(3).is_err());
}

#[test]
fn lib_insert_and_get_the_value() {
    let mut table = InvertibleBloomLookupTable::new(256, 8).unwrap();
    assert!(table.insert(3, 5).is_ok());
    assert_eq!(table.get(3).ok().unwrap(), 5);
}

#[test]
fn lib_try_to_remove_a_value_from_an_empty_table() {
    let mut table = InvertibleBloomLookupTable::new(256, 8).unwrap();
    assert!(table.delete(3, 5).is_err());
}

#[test]
fn lib_insert_remove_and_get_the_value() {
    let mut table = InvertibleBloomLookupTable::new(256, 8).unwrap();
    assert!(table.insert(3, 5).is_ok());
    assert!(table.delete(3, 5).is_ok());
    assert!(table.get(3).is_err());
}

#[test]
fn lib_insert_one_items_and_get_list_entries() {
    let mut table = InvertibleBloomLookupTable::new(256, 8).unwrap();
    assert!(table.insert(4, 6).is_ok());
    let results = table.list_entries().ok().unwrap();
    assert_eq!(results.key_pairs.len(), 1);
    for output in results.key_pairs {
        if output.key_sum == 4 {
            assert_eq!(output.value_sum, 6);
        }
    }
}

#[test]
fn lib_insert_two_items_and_get_list_entries() {
    let mut table = InvertibleBloomLookupTable::new(256, 8).unwrap();
    assert!(table.insert(4, 6).is_ok());
    assert!(table.insert(5, 7).is_ok());
    let results = table.list_entries().ok().unwrap();
    assert_eq!(results.key_pairs.len(), 2);
    for output in results.key_pairs {
        if output.key_sum == 4 {
            assert_eq!(output.value_sum, 6);
        } else if output.key_sum == 5 {
            assert_eq!(output.value_sum, 7);
        }
    }
}

#[test]
fn lib_insert_three_items_and_get_list_entries() {
    let mut table = InvertibleBloomLookupTable::new(256, 8).unwrap();
    assert!(table.insert(3, 5).is_ok());
    assert!(table.insert(4, 6).is_ok());
    assert!(table.insert(5, 7).is_ok());
    let results = table.list_entries().ok().unwrap();
    assert_eq!(results.key_pairs.len(), 3);
    for output in results.key_pairs {
        if output.key_sum == 3 {
            assert_eq!(output.value_sum, 5);
        } else if output.key_sum == 4 {
            assert_eq!(output.value_sum, 6);
        } else if output.key_sum == 5 {
            assert_eq!(output.value_sum, 7);
        }
    }
}
