use anise::lookuptable::{Entry, LookUpTable, MAX_LUT_ENTRIES};

fn round_trip(repr: &LookUpTable) -> LookUpTable {
    let (ids, names, entries) = repr.der_encoding();
    LookUpTable::from_sequences(&ids, &names, &entries)
}

#[test]
fn zero_repr() {
    let repr = LookUpTable::default();
    let repr_dec = round_trip(&repr);
    assert_eq!(repr, repr_dec);
}

#[test]
fn repr_ids_only() {
    let mut repr = LookUpTable::default();
    let num_bytes = 363;
    for i in 0..(MAX_LUT_ENTRIES as u32) {
        let id = -20 - (i as i32);
        repr.append_id(
            id,
            Entry {
                start_idx: (i * num_bytes) as u32,
                end_idx: ((i + 1) * num_bytes) as u32,
            },
        )
        .unwrap();
    }
    let repr_dec = round_trip(&repr);
    assert_eq!(repr, repr_dec);
}

#[test]
fn repr_names_only() {
    let mut names = Vec::new();
    let mut repr = LookUpTable::default();
    let num_bytes = 363;
    for i in 0..(MAX_LUT_ENTRIES as usize) {
        names.push(format!("Name{}", i));
    }
    for i in 0..(MAX_LUT_ENTRIES as usize) {
        repr.append_name(
            &names[i],
            Entry {
                start_idx: (i * num_bytes) as u32,
                end_idx: ((i + 1) * num_bytes) as u32,
            },
        )
        .unwrap();
    }
    let repr_dec = round_trip(&repr);
    assert_eq!(repr, repr_dec);
}

#[test]
fn test_integrity_checker() {
    let mut lut = LookUpTable::default();
    assert!(lut.check_integrity()); // Empty, passes

    lut.append(1, "a", Entry::default()).unwrap();
    assert!(lut.check_integrity()); // ID only, passes

    lut.append_name("a", Entry::default()).unwrap();
    assert!(lut.check_integrity()); // Name added, passes

    lut.append(2, "b", Entry::default()).unwrap();
    assert!(lut.check_integrity());

    lut.append_name("b", Entry::default()).unwrap();
    assert!(lut.check_integrity()); // Name added, passes
}

#[test]
fn appends_agree_by_id_and_by_name() {
    let mut lut = LookUpTable::default();
    for i in 0..10u32 {
        let name = format!("body{}", i);
        let e = Entry { start_idx: 10 * i, end_idx: 10 * i + 7 };
        lut.append(i as i32 + 100, &name, e).unwrap();
    }
    for i in 0..10u32 {
        let name = format!("body{}", i);
        let e = Entry { start_idx: 10 * i, end_idx: 10 * i + 7 };
        assert_eq!(lut.get_by_id(i as i32 + 100), Some(e));
        assert_eq!(lut.get_by_name(&name), Some(e));
    }
    assert!(lut.check_integrity());
}

#[test]
fn integrity_fails_on_mismatched_sides() {
    let mut lut = LookUpTable::default();
    lut.append_id(1, Entry { start_idx: 0, end_idx: 5 }).unwrap();
    lut.append_id(2, Entry { start_idx: 5, end_idx: 9 }).unwrap();
    lut.append_name("a", Entry { start_idx: 0, end_idx: 5 }).unwrap();
    assert!(!lut.check_integrity());
    lut.append_name("b", Entry { start_idx: 5, end_idx: 8 }).unwrap();
    assert!(!lut.check_integrity());
}

#[test]
fn repeated_id_with_other_name_breaks_integrity() {
    let mut lut = LookUpTable::default();
    lut.append(1, "a", Entry { start_idx: 0, end_idx: 1 }).unwrap();
    lut.append(1, "b", Entry { start_idx: 1, end_idx: 2 }).unwrap();
    assert_eq!(lut.get_by_id(1), Some(Entry { start_idx: 1, end_idx: 2 }));
    assert!(!lut.check_integrity());
}

#[test]
fn full_table_refuses_new_keys() {
    let mut lut = LookUpTable::default();
    for i in 0..(MAX_LUT_ENTRIES as i32) {
        lut.append_id(i, Entry::default()).unwrap();
    }
    assert!(lut.append_id(1000, Entry::default()).is_err());
    assert_eq!(lut.get_by_id(1000), None);
    // an existing key still takes a new value
    let e = Entry { start_idx: 3, end_idx: 4 };
    lut.append_id(5, e).unwrap();
    assert_eq!(lut.get_by_id(5), Some(e));
    // the name side is not filled when the identifier side refuses
    assert!(lut.append(2000, "late", e).is_err());
    assert_eq!(lut.get_by_name("late"), None);
}

#[test]
fn encoding_picks_the_fuller_side() {
    let mut lut = LookUpTable::default();
    lut.append_id(7, Entry { start_idx: 1, end_idx: 2 }).unwrap();
    lut.append_name("x", Entry { start_idx: 3, end_idx: 4 }).unwrap();
    lut.append_name("y", Entry { start_idx: 5, end_idx: 6 }).unwrap();
    let (ids, names, entries) = lut.der_encoding();
    assert_eq!(ids, vec![7]);
    assert_eq!(names, vec!["x".to_string(), "y".to_string()]);
    assert_eq!(entries, vec![Entry { start_idx: 3, end_idx: 4 }, Entry { start_idx: 5, end_idx: 6 }]);
}

#[test]
fn rebuild_pairs_as_far_as_entries_go() {
    let ids = vec![1, 2, 3];
    let names = vec!["a".to_string()];
    let entries = vec![Entry { start_idx: 0, end_idx: 1 }, Entry { start_idx: 1, end_idx: 2 }];
    let lut = LookUpTable::from_sequences(&ids, &names, &entries);
    assert_eq!(lut.get_by_id(1), Some(entries[0]));
    assert_eq!(lut.get_by_id(2), Some(entries[1]));
    assert_eq!(lut.get_by_id(3), None);
    assert_eq!(lut.get_by_name("a"), Some(entries[0]));
    assert!(!lut.check_integrity());
}

#[test]
fn entry_range() {
    let e = Entry { start_idx: 12, end_idx: 40 };
    assert_eq!(e.as_range(), 12..40);
}

#[test]
fn integrity_needs_the_same_entries_on_both_sides() {
    let e1 = Entry { start_idx: 0, end_idx: 1 };
    let e2 = Entry { start_idx: 1, end_idx: 2 };
    let mut lut = LookUpTable::default();
    lut.append_id(1, e1).unwrap();
    lut.append_id(2, e1).unwrap();
    lut.append_name("a", e1).unwrap();
    lut.append_name("b", e2).unwrap();
    assert!(!lut.check_integrity());
}

#[test]
fn encoding_keeps_insertion_order_and_round_trips() {
    let mut lut = LookUpTable::default();
    let pairs = [(30, "c", 7u32), (-5, "a", 3), (12, "b", 9)];
    for (id, name, k) in pairs {
        lut.append(id, name, Entry { start_idx: k, end_idx: k + 1 }).unwrap();
    }
    let (ids, names, entries) = lut.der_encoding();
    assert_eq!(ids, vec![30, -5, 12]);
    assert_eq!(names, vec!["c".to_string(), "a".to_string(), "b".to_string()]);
    assert_eq!(entries.iter().map(|e| e.start_idx).collect::<Vec<_>>(), vec![7, 3, 9]);
    let back = LookUpTable::from_sequences(&ids, &names, &entries);
    assert_eq!(back, lut);
    assert_eq!(back.get_by_name("a"), Some(Entry { start_idx: 3, end_idx: 4 }));
}
