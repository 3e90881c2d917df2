use turbo_persistence::collector_entry::{CollectorEntry, CollectorEntryValue, EntryKey};
use turbo_persistence::lookup_entry::{LazyLookupValue, LookupEntry, LookupValue};
use turbo_persistence::sort_dedup::{sort_and_dedup, FamilyKind};

fn small(bytes: &[u8]) -> CollectorEntryValue {
    CollectorEntryValue::Small {
        value: bytes.to_vec().into_boxed_slice(),
    }
}

fn tiny(bytes: &[u8]) -> CollectorEntryValue {
    let mut value = [0u8; 22];
    value[..bytes.len()].copy_from_slice(bytes);
    CollectorEntryValue::Tiny {
        value,
        len: bytes.len() as u8,
    }
}

fn entry(hash: u64, key: &[u8], value: CollectorEntryValue) -> CollectorEntry {
    CollectorEntry {
        key: EntryKey {
            hash,
            data: key.to_vec(),
        },
        value,
    }
}

fn describe(entries: &[CollectorEntry]) -> Vec<(u64, Vec<u8>, Option<Vec<u8>>)> {
    entries
        .iter()
        .map(|e| {
            (
                e.key.hash,
                e.key.data.clone(),
                e.value.as_bytes().map(|b| b.to_vec()),
            )
        })
        .collect()
}

#[test]
fn single_value_latest_write_wins() {
    let mut entries = vec![
        entry(2, b"b", small(b"first")),
        entry(1, b"a", small(b"one")),
        entry(2, b"b", small(b"second")),
        entry(2, b"b", small(b"third!")),
    ];
    let dropped = sort_and_dedup::<false, _>(&mut entries, FamilyKind::SingleValue);
    assert_eq!(
        describe(&entries),
        vec![
            (1, b"a".to_vec(), Some(b"one".to_vec())),
            (2, b"b".to_vec(), Some(b"third!".to_vec())),
        ]
    );
    // The two older writes of key b were removed: keys of 9 bytes, values of 5 + 6 bytes.
    assert_eq!(dropped.key_size, 18);
    assert_eq!(dropped.value_size, 11);
}

#[test]
fn single_value_orders_by_hash_then_key_bytes() {
    let mut entries = vec![
        entry(5, b"b", small(b"x")),
        entry(5, b"a", small(b"y")),
        entry(5, b"ab", small(b"z")),
        entry(3, b"zz", small(b"w")),
    ];
    let dropped = sort_and_dedup::<false, _>(&mut entries, FamilyKind::SingleValue);
    let keys: Vec<(u64, Vec<u8>)> = entries
        .iter()
        .map(|e| (e.key.hash, e.key.data.clone()))
        .collect();
    assert_eq!(
        keys,
        vec![
            (3, b"zz".to_vec()),
            (5, b"a".to_vec()),
            (5, b"ab".to_vec()),
            (5, b"b".to_vec()),
        ]
    );
    assert_eq!(dropped.key_size, 0);
    assert_eq!(dropped.value_size, 0);
}

#[test]
fn single_value_already_sorted_skips_the_sort() {
    let mut entries = vec![
        entry(1, b"a", small(b"1")),
        entry(1, b"a", small(b"22")),
        entry(2, b"b", CollectorEntryValue::Deleted),
    ];
    let dropped = sort_and_dedup::<true, _>(&mut entries, FamilyKind::SingleValue);
    assert_eq!(
        describe(&entries),
        vec![
            (1, b"a".to_vec(), Some(b"22".to_vec())),
            (2, b"b".to_vec(), None),
        ]
    );
    assert_eq!(dropped.key_size, 9);
    assert_eq!(dropped.value_size, 1);
}

#[test]
fn single_value_empty_input() {
    let mut entries: Vec<CollectorEntry> = Vec::new();
    let dropped = sort_and_dedup::<false, _>(&mut entries, FamilyKind::SingleValue);
    assert!(entries.is_empty());
    assert_eq!((dropped.key_size, dropped.value_size), (0, 0));
}

#[test]
fn multi_value_tombstone_discards_prior_values() {
    let mut entries = vec![
        entry(1, b"k", small(b"old1")),
        entry(1, b"k", small(b"old2")),
        entry(1, b"k", CollectorEntryValue::Deleted),
        entry(1, b"k", small(b"new")),
        entry(2, b"j", small(b"keep")),
    ];
    let dropped = sort_and_dedup::<false, _>(&mut entries, FamilyKind::MultiValue);
    assert_eq!(
        describe(&entries),
        vec![
            (1, b"k".to_vec(), None),
            (1, b"k".to_vec(), Some(b"new".to_vec())),
            (2, b"j".to_vec(), Some(b"keep".to_vec())),
        ]
    );
    assert!(matches!(entries[0].value, CollectorEntryValue::Deleted));
    assert_eq!(dropped.key_size, 18);
    assert_eq!(dropped.value_size, 8);
}

#[test]
fn multi_value_last_tombstone_wins() {
    let mut entries = vec![
        entry(1, b"k", CollectorEntryValue::Deleted),
        entry(1, b"k", small(b"a")),
        entry(1, b"k", CollectorEntryValue::Deleted),
        entry(1, b"k", small(b"b")),
    ];
    let dropped = sort_and_dedup::<false, _>(&mut entries, FamilyKind::MultiValue);
    assert_eq!(
        describe(&entries),
        vec![(1, b"k".to_vec(), None), (1, b"k".to_vec(), Some(b"b".to_vec()))]
    );
    assert_eq!(dropped.key_size, 18);
    assert_eq!(dropped.value_size, 1);
}

#[test]
fn multi_value_dedups_equal_pairs_across_variants_and_sorts_by_value() {
    let mut entries = vec![
        entry(1, b"k", small(b"zz")),
        entry(1, b"k", tiny(b"aa")),
        entry(1, b"k", small(b"aa")),
        entry(1, b"k", CollectorEntryValue::Large { blob: 7 }),
        entry(1, b"k", CollectorEntryValue::Large { blob: 3 }),
    ];
    let dropped = sort_and_dedup::<false, _>(&mut entries, FamilyKind::MultiValue);
    assert_eq!(entries.len(), 4);
    assert_eq!(entries[0].value.as_bytes(), Some(&b"aa"[..]));
    // The first of the two equal values (the tiny one) is kept.
    assert!(matches!(entries[0].value, CollectorEntryValue::Tiny { .. }));
    assert_eq!(entries[1].value.as_bytes(), Some(&b"zz"[..]));
    assert!(matches!(entries[2].value, CollectorEntryValue::Large { blob: 3 }));
    assert!(matches!(entries[3].value, CollectorEntryValue::Large { blob: 7 }));
    assert_eq!(dropped.key_size, 9);
    assert_eq!(dropped.value_size, 2);
}

#[test]
fn multi_value_without_tombstone_keeps_all_distinct_values() {
    let mut entries = vec![
        entry(4, b"x", small(b"b")),
        entry(4, b"x", small(b"a")),
    ];
    let dropped = sort_and_dedup::<true, _>(&mut entries, FamilyKind::MultiValue);
    assert_eq!(
        describe(&entries),
        vec![
            (4, b"x".to_vec(), Some(b"a".to_vec())),
            (4, b"x".to_vec(), Some(b"b".to_vec())),
        ]
    );
    assert_eq!((dropped.key_size, dropped.value_size), (0, 0));
}

#[test]
fn sort_and_dedup_is_idempotent() {
    let mut entries = vec![
        entry(3, b"c", small(b"1")),
        entry(1, b"a", CollectorEntryValue::Deleted),
        entry(3, b"c", small(b"1")),
        entry(1, b"a", small(b"2")),
    ];
    sort_and_dedup::<false, _>(&mut entries, FamilyKind::MultiValue);
    let once = describe(&entries);
    let dropped = sort_and_dedup::<false, _>(&mut entries, FamilyKind::MultiValue);
    assert_eq!(describe(&entries), once);
    assert_eq!((dropped.key_size, dropped.value_size), (0, 0));
}

fn lookup(hash: u64, key: &[u8], value: LazyLookupValue<'static>) -> LookupEntry<'static> {
    LookupEntry {
        hash,
        key: key.to_vec(),
        value,
    }
}

#[test]
fn lookup_entries_multi_value_merge() {
    static BLOCK: [u8; 3] = [9, 9, 9];
    let mut entries = vec![
        lookup(1, b"k", LazyLookupValue::Eager(LookupValue::Slice { value: b"v".to_vec() })),
        lookup(1, b"k", LazyLookupValue::Eager(LookupValue::Deleted)),
        lookup(1, b"k", LazyLookupValue::Medium { uncompressed_size: 100, block: &BLOCK }),
        lookup(1, b"k", LazyLookupValue::Eager(LookupValue::Blob { sequence_number: 5 })),
        lookup(1, b"k", LazyLookupValue::Medium { uncompressed_size: 100, block: &BLOCK }),
    ];
    let dropped = sort_and_dedup::<true, _>(&mut entries, FamilyKind::MultiValue);
    assert_eq!(entries.len(), 3);
    assert!(matches!(entries[0].value, LazyLookupValue::Eager(LookupValue::Deleted)));
    assert!(matches!(entries[1].value, LazyLookupValue::Medium { .. }));
    assert!(matches!(
        entries[2].value,
        LazyLookupValue::Eager(LookupValue::Blob { sequence_number: 5 })
    ));
    // The slice before the tombstone and the duplicate compressed block were removed.
    assert_eq!(dropped.key_size, 2);
    assert_eq!(dropped.value_size, 101);
}

#[test]
fn lookup_entries_single_value_keeps_latest() {
    let mut entries = vec![
        lookup(2, b"b", LazyLookupValue::Eager(LookupValue::Slice { value: b"old".to_vec() })),
        lookup(2, b"b", LazyLookupValue::Eager(LookupValue::Slice { value: b"new".to_vec() })),
        lookup(1, b"a", LazyLookupValue::Eager(LookupValue::Deleted)),
    ];
    let dropped = sort_and_dedup::<false, _>(&mut entries, FamilyKind::SingleValue);
    assert_eq!(entries.len(), 2);
    assert_eq!(entries[0].hash, 1);
    match &entries[1].value {
        LazyLookupValue::Eager(LookupValue::Slice { value }) => assert_eq!(value, b"new"),
        _ => panic!("expected the latest slice"),
    }
    assert_eq!((dropped.key_size, dropped.value_size), (1, 3));
}

#[test]
fn sorted_input_gives_the_same_outcome_with_or_without_the_sort() {
    let make = || {
        vec![
            entry(1, b"a", small(b"x")),
            entry(1, b"a", CollectorEntryValue::Deleted),
            entry(1, b"a", small(b"y")),
            entry(2, b"b", small(b"z")),
            entry(2, b"b", small(b"z")),
        ]
    };
    for kind in [FamilyKind::SingleValue, FamilyKind::MultiValue] {
        let mut sorted_flag = make();
        let mut unsorted_flag = make();
        let d1 = sort_and_dedup::<true, _>(&mut sorted_flag, kind);
        let d2 = sort_and_dedup::<false, _>(&mut unsorted_flag, kind);
        assert_eq!(describe(&sorted_flag), describe(&unsorted_flag));
        assert_eq!((d1.key_size, d1.value_size), (d2.key_size, d2.value_size));
    }
}

#[test]
fn dropped_and_kept_sizes_add_up_to_the_input() {
    let mut entries = vec![
        entry(9, b"long key", small(b"value one")),
        entry(9, b"long key", small(b"v2")),
        entry(3, b"k", CollectorEntryValue::Large { blob: 1 }),
        entry(9, b"long key", CollectorEntryValue::Deleted),
    ];
    let key_total: usize = entries.iter().map(|e| e.key.len()).sum();
    let value_total: usize = entries.iter().map(|e| e.value.len()).sum();
    let dropped = sort_and_dedup::<false, _>(&mut entries, FamilyKind::SingleValue);
    let key_kept: usize = entries.iter().map(|e| e.key.len()).sum();
    let value_kept: usize = entries.iter().map(|e| e.value.len()).sum();
    assert_eq!(dropped.key_size + key_kept, key_total);
    assert_eq!(dropped.value_size + value_kept, value_total);
    assert_eq!(entries.len(), 2);
    assert!(matches!(entries[1].value, CollectorEntryValue::Deleted));
}

#[test]
fn single_value_passed_as_sorted_keeps_the_last_of_each_adjacent_run() {
    // Not sorted by key, but passed as sorted: only adjacent equal keys collapse.
    let mut entries = vec![
        entry(2, b"b", small(b"b1")),
        entry(2, b"b", small(b"b2")),
        entry(1, b"a", small(b"a1")),
        entry(2, b"b", small(b"b3")),
    ];
    let dropped = sort_and_dedup::<true, _>(&mut entries, FamilyKind::SingleValue);
    assert_eq!(
        describe(&entries),
        vec![
            (2, b"b".to_vec(), Some(b"b2".to_vec())),
            (1, b"a".to_vec(), Some(b"a1".to_vec())),
            (2, b"b".to_vec(), Some(b"b3".to_vec())),
        ]
    );
    assert_eq!(dropped.key_size, 9);
    assert_eq!(dropped.value_size, 2);
}

#[test]
fn multi_value_passed_as_sorted_prunes_adjacent_runs_only() {
    // The tombstone of key b cancels only the b values that are adjacent before it.
    let mut entries = vec![
        entry(2, b"b", small(b"old")),
        entry(1, b"a", small(b"a1")),
        entry(2, b"b", small(b"mid")),
        entry(2, b"b", CollectorEntryValue::Deleted),
        entry(2, b"b", small(b"new")),
    ];
    let dropped = sort_and_dedup::<true, _>(&mut entries, FamilyKind::MultiValue);
    assert_eq!(
        describe(&entries),
        vec![
            (1, b"a".to_vec(), Some(b"a1".to_vec())),
            (2, b"b".to_vec(), None),
            (2, b"b".to_vec(), Some(b"new".to_vec())),
            (2, b"b".to_vec(), Some(b"old".to_vec())),
        ]
    );
    assert!(matches!(entries[1].value, CollectorEntryValue::Deleted));
    assert_eq!(dropped.key_size, 9);
    assert_eq!(dropped.value_size, 3);
}

#[test]
fn second_call_passed_as_sorted_changes_nothing() {
    let mut entries = vec![
        entry(2, b"b", small(b"x")),
        entry(1, b"a", small(b"y")),
        entry(2, b"b", small(b"z")),
    ];
    sort_and_dedup::<false, _>(&mut entries, FamilyKind::SingleValue);
    let once = describe(&entries);
    let dropped = sort_and_dedup::<true, _>(&mut entries, FamilyKind::SingleValue);
    assert_eq!(describe(&entries), once);
    assert_eq!((dropped.key_size, dropped.value_size), (0, 0));
}

#[test]
fn multi_value_keeps_a_tombstone_exactly_for_keys_that_had_one() {
    let mut entries = vec![
        entry(1, b"a", small(b"v1")),
        entry(1, b"a", CollectorEntryValue::Deleted),
        entry(1, b"a", CollectorEntryValue::Deleted),
        entry(2, b"b", small(b"w")),
        entry(1, b"a", small(b"v2")),
    ];
    sort_and_dedup::<false, _>(&mut entries, FamilyKind::MultiValue);
    let tombstones_a = entries
        .iter()
        .filter(|e| e.key.hash == 1 && matches!(e.value, CollectorEntryValue::Deleted))
        .count();
    let tombstones_b = entries
        .iter()
        .filter(|e| e.key.hash == 2 && matches!(e.value, CollectorEntryValue::Deleted))
        .count();
    assert_eq!(tombstones_a, 1);
    assert_eq!(tombstones_b, 0);
    assert!(matches!(entries[0].value, CollectorEntryValue::Deleted));
    assert_eq!(entries.len(), 3);
}
