use iblt::IBLTError;
use iblt::InvertibleBloomLookupTable;

#[test]
fn error_carries_its_message() {
    let e = IBLTError::new("Error: Not Found");
    assert_eq!(e.message(), "Error: Not Found");
}

#[test]
fn out_of_range_area_reports_index_out_of_bounds() {
    let table = InvertibleBloomLookupTable::new(256, 8).unwrap();
    let e = table.hash(8, 3).err().unwrap();
    assert_eq!(e.message(), "Index out of bounds");
    let e = table.hash(200, 3).err().unwrap();
    assert_eq!(e.message(), "Index out of bounds");
}

#[test]
fn absent_key_reports_not_found() {
    let mut table = InvertibleBloomLookupTable::new(256, 8).unwrap();
    let e = table.get(42).err().unwrap();
    assert_eq!(e.message(), "Error: Not Found");
    let e = table.delete(42, 7).err().unwrap();
    assert_eq!(e.message(), "Error: Not Found");
}

#[test]
fn hash_is_deterministic_across_calls() {
    let table = InvertibleBloomLookupTable::new(256, 8).unwrap();
    for v in [0u32, 1, 17, 0xffff_ffff] {
        assert_eq!(table.hash(3, v).unwrap(), table.hash(3, v).unwrap());
    }
}

#[test]
fn hash_stays_in_area_for_all_areas() {
    let table = InvertibleBloomLookupTable::new(64, 4).unwrap();
    let area_size = 64 / 4;
    for i in 0..4u8 {
        for v in [0u32, 5, 1000, 0xdead_beef] {
            let idx = table.hash(i, v).unwrap();
            assert!(idx >= i as usize * area_size);
            assert!(idx < (i as usize + 1) * area_size);
        }
    }
}

#[test]
fn wrapping_keys_and_values_survive_a_round_trip() {
    let mut table = InvertibleBloomLookupTable::new(256, 8).unwrap();
    assert!(table.insert(0xffff_ffff, 0xffff_fffe).is_ok());
    assert_eq!(table.get(0xffff_ffff).ok().unwrap(), 0xffff_fffe);
    assert!(table.delete(0xffff_ffff, 0xffff_fffe).is_ok());
    assert!(table.get(0xffff_ffff).is_err());
}

#[test]
fn single_insert_listing_is_complete() {
    let mut table = InvertibleBloomLookupTable::new(256, 8).unwrap();
    assert!(table.insert(4, 6).is_ok());
    let results = table.list_entries().ok().unwrap();
    assert_eq!(results.key_pairs.len(), 1);
    assert!(results.complete_list);
    assert_eq!(results.key_pairs[0].key_sum, 4);
    assert_eq!(results.key_pairs[0].value_sum, 6);
}

#[test]
fn listing_leaves_the_table_untouched() {
    let mut table = InvertibleBloomLookupTable::new(256, 8).unwrap();
    assert!(table.insert(3, 5).is_ok());
    assert!(table.insert(4, 6).is_ok());
    assert!(table.insert(5, 7).is_ok());
    let results = table.list_entries().ok().unwrap();
    assert_eq!(results.key_pairs.len(), 3);
    assert!(results.complete_list);
    assert_eq!(table.get(3).ok().unwrap(), 5);
    assert_eq!(table.get(4).ok().unwrap(), 6);
    assert_eq!(table.get(5).ok().unwrap(), 7);
}

#[test]
fn deleting_a_wrong_value_corrupts_silently() {
    let mut table = InvertibleBloomLookupTable::new(256, 8).unwrap();
    assert!(table.insert(3, 5).is_ok());
    // Removal trusts the caller: a wrong value is subtracted without
    // complaint, leaving the accumulators corrupted.
    assert!(table.delete(3, 9).is_ok());
    assert!(table.get(3).is_err());
}

#[test]
fn overloaded_key_cannot_be_resolved() {
    let mut table = InvertibleBloomLookupTable::new(256, 8).unwrap();
    // The same key twice overloads every cell it is routed to, so the
    // point lookup runs out of areas and reports the key absent.
    assert!(table.insert(3, 5).is_ok());
    assert!(table.insert(3, 6).is_ok());
    let e = table.get(3).err().unwrap();
    assert_eq!(e.message(), "Error: Not Found");
}

/// The area-0 and area-1 cell indices that operations on `key` touch,
/// read back through the public router.
fn routing(table: &InvertibleBloomLookupTable, key: u32) -> (usize, usize) {
    let i0 = table.hash(0, key).unwrap();
    let i1 = table.hash(1, key.wrapping_add(1)).unwrap();
    (i0, i1)
}

/// The first key whose two cells are exactly `want`.
fn key_routed_to(table: &InvertibleBloomLookupTable, want: (usize, usize)) -> u32 {
    for k in 0..1_000_000u32 {
        if routing(table, k) == want {
            return k;
        }
    }
    panic!("no key found for the wanted routing");
}

#[test]
fn a_singleton_of_a_colliding_key_stops_the_lookup() {
    let table = InvertibleBloomLookupTable::new(6, 2).unwrap();
    // Two keys sharing their area-0 cell; only one is inserted. Looking
    // up the other meets a singleton holding a different key and stops
    // there with nothing found.
    let present = key_routed_to(&table, (0, 3));
    let mut absent = 0;
    for k in 0..1_000_000u32 {
        if k != present && routing(&table, k).0 == 0 {
            absent = k;
            break;
        }
    }
    assert!(absent != present);
    let mut table = table;
    assert!(table.insert(present, 44).is_ok());
    let e = table.get(absent).err().unwrap();
    assert_eq!(e.message(), "Error: Not Found");
    assert_eq!(table.get(present).ok().unwrap(), 44);
}

#[test]
fn single_pass_misses_a_singleton_exposed_behind_the_scan() {
    // Six cells, two areas: area 0 is cells 0..3, area 1 is cells 3..6.
    let table = InvertibleBloomLookupTable::new(6, 2).unwrap();
    // Four entries arranged so that cell 0 is overloaded when visited
    // and becomes a singleton only after a later extraction:
    //   a -> cells (0, 3)   b -> cells (0, 4)
    //   z -> cells (1, 4)   w -> cells (1, 5)
    let a = key_routed_to(&table, (0, 3));
    let b = key_routed_to(&table, (0, 4));
    let z = key_routed_to(&table, (1, 4));
    let w = key_routed_to(&table, (1, 5));
    assert!(a != b && a != z && a != w && b != z && b != w && z != w);
    let mut table = table;
    assert!(table.insert(a, 100).is_ok());
    assert!(table.insert(b, 101).is_ok());
    assert!(table.insert(z, 102).is_ok());
    assert!(table.insert(w, 103).is_ok());
    // The pass visits cell 0 at count 2, extracts `a` at cell 3, which
    // drops cell 0 to a singleton holding `b` - but cell 0 has already
    // been passed, so `b` is never recovered; `z` stays overloaded too.
    let results = table.list_entries().ok().unwrap();
    assert!(!results.complete_list);
    assert_eq!(results.key_pairs.len(), 2);
    let pairs: Vec<(u32, u32)> = results
        .key_pairs
        .iter()
        .map(|o| (o.key_sum, o.value_sum))
        .collect();
    assert!(pairs.contains(&(a, 100)));
    assert!(pairs.contains(&(w, 103)));
    assert!(!pairs.contains(&(b, 101)));
    assert!(!pairs.contains(&(z, 102)));
}
