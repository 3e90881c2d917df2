use std::cmp::Ordering;

use turbo_persistence::collector_entry::{
    CollectorEntry, CollectorEntryValue, EntryKey, TINY_VALUE_THRESHOLD,
};
use turbo_persistence::constants::{MAX_INLINE_VALUE_SIZE, MAX_SMALL_VALUE_SIZE};
use turbo_persistence::entry::{Entry, EntryValue};
use turbo_persistence::lookup_entry::{LazyLookupValue, LookupEntry, LookupValue};
use turbo_persistence::order::{compare_bytes, compare_keys, then_compare, ValueCategory};
use turbo_persistence::sortable::SortableEntry;

fn tiny(bytes: &[u8]) -> CollectorEntryValue {
    let mut value = [0u8; TINY_VALUE_THRESHOLD];
    value[..bytes.len()].copy_from_slice(bytes);
    CollectorEntryValue::Tiny {
        value,
        len: bytes.len() as u8,
    }
}

fn boxed(bytes: &[u8]) -> Box<[u8]> {
    bytes.to_vec().into_boxed_slice()
}

fn collector(hash: u64, key: &[u8], value: CollectorEntryValue) -> CollectorEntry {
    CollectorEntry {
        key: EntryKey {
            hash,
            data: key.to_vec(),
        },
        value,
    }
}

#[test]
fn collector_value_len() {
    assert_eq!(tiny(b"abc").len(), 3);
    assert_eq!(CollectorEntryValue::Small { value: boxed(&[1; 30]) }.len(), 30);
    assert_eq!(CollectorEntryValue::Medium { value: boxed(&[1; 5000]) }.len(), 5000);
    assert_eq!(CollectorEntryValue::Large { blob: 9 }.len(), 0);
    assert_eq!(CollectorEntryValue::Deleted.len(), 0);
}

#[test]
fn collector_value_is_medium() {
    assert!(CollectorEntryValue::Medium { value: boxed(b"x") }.is_medium_value());
    assert!(!CollectorEntryValue::Small { value: boxed(b"x") }.is_medium_value());
    assert!(!tiny(b"x").is_medium_value());
    assert!(!CollectorEntryValue::Large { blob: 1 }.is_medium_value());
    assert!(!CollectorEntryValue::Deleted.is_medium_value());
}

#[test]
fn collector_value_small_value_size() {
    // Tiny values above the inline limit are packed into small blocks.
    assert_eq!(tiny(&[7; 20]).small_value_size(), 20);
    assert_eq!(tiny(&[7; MAX_INLINE_VALUE_SIZE]).small_value_size(), 0);
    assert_eq!(tiny(&[7; MAX_INLINE_VALUE_SIZE + 1]).small_value_size(), MAX_INLINE_VALUE_SIZE + 1);
    assert_eq!(CollectorEntryValue::Small { value: boxed(&[1; 100]) }.small_value_size(), 100);
    assert_eq!(CollectorEntryValue::Medium { value: boxed(&[1; 100]) }.small_value_size(), 0);
    assert_eq!(CollectorEntryValue::Large { blob: 1 }.small_value_size(), 0);
    assert_eq!(CollectorEntryValue::Deleted.small_value_size(), 0);
}

#[test]
fn collector_value_as_bytes() {
    assert_eq!(tiny(b"hi").as_bytes(), Some(&b"hi"[..]));
    assert_eq!(tiny(b"").as_bytes(), Some(&b""[..]));
    assert_eq!(CollectorEntryValue::Small { value: boxed(b"small") }.as_bytes(), Some(&b"small"[..]));
    assert_eq!(CollectorEntryValue::Medium { value: boxed(b"med") }.as_bytes(), Some(&b"med"[..]));
    assert_eq!(CollectorEntryValue::Large { blob: 2 }.as_bytes(), None);
    assert_eq!(CollectorEntryValue::Deleted.as_bytes(), None);
}

#[test]
fn collector_value_category_and_compare() {
    assert!(matches!(CollectorEntryValue::Deleted.category(), ValueCategory::Deleted));
    assert!(matches!(CollectorEntryValue::Large { blob: 4 }.category(), ValueCategory::Blob(4)));
    assert!(matches!(tiny(b"q").category(), ValueCategory::ByteContent(b) if b == b"q"));
    // The same bytes compare equal whichever variant holds them.
    let t = tiny(b"same");
    let s = CollectorEntryValue::Small { value: boxed(b"same") };
    let m = CollectorEntryValue::Medium { value: boxed(b"same") };
    assert_eq!(t.compare(&s), Ordering::Equal);
    assert_eq!(s.compare(&m), Ordering::Equal);
    // Deleted < bytes < blobs.
    assert_eq!(CollectorEntryValue::Deleted.compare(&t), Ordering::Less);
    assert_eq!(t.compare(&CollectorEntryValue::Large { blob: 0 }), Ordering::Less);
    assert_eq!(
        CollectorEntryValue::Large { blob: 9 }.compare(&CollectorEntryValue::Large { blob: 3 }),
        Ordering::Greater
    );
    assert_eq!(tiny(b"ab").compare(&tiny(b"b")), Ordering::Less);
}

#[test]
fn entry_key_len_and_compare() {
    let k = EntryKey {
        hash: 5,
        data: b"key".to_vec(),
    };
    assert_eq!(k.len(), 11);
    let smaller_hash = EntryKey {
        hash: 4,
        data: b"zzz".to_vec(),
    };
    assert_eq!(smaller_hash.compare(&k), Ordering::Less);
    let prefix = EntryKey {
        hash: 5,
        data: b"ke".to_vec(),
    };
    assert_eq!(prefix.compare(&k), Ordering::Less);
    assert_eq!(k.compare(&prefix), Ordering::Greater);
    assert_eq!(k.compare(&EntryKey { hash: 5, data: b"key".to_vec() }), Ordering::Equal);
}

#[test]
fn collector_entry_sortable_methods() {
    let a = collector(1, b"a", tiny(b"v"));
    let b = collector(1, b"a", CollectorEntryValue::Deleted);
    let c = collector(2, b"a", tiny(b"v"));
    assert_eq!(a.cmp_key(&b), Ordering::Equal);
    assert_eq!(a.cmp_key(&c), Ordering::Less);
    assert_eq!(a.cmp_entry(&b), Ordering::Greater);
    assert_eq!(b.cmp_entry(&a), Ordering::Less);
    assert_eq!(a.cmp_entry(&c), Ordering::Less);
    assert!(b.is_deleted());
    assert!(!a.is_deleted());
    assert_eq!(a.entry_size(), (9, 1));
    assert_eq!(b.entry_size(), (9, 0));
    assert_eq!(a.compare(&a), Ordering::Equal);
}

#[test]
fn collector_entry_sst_entry() {
    let e = collector(77, b"key", tiny(b"abc"));
    assert_eq!(e.key_hash(), 77);
    assert_eq!(e.key_len(), 3);
    let mut buf = vec![1u8];
    e.write_key_to(&mut buf);
    assert_eq!(buf, vec![1, b'k', b'e', b'y']);
    assert!(matches!(e.value(), EntryValue::Inline { value } if value == b"abc"));
    let bigger_tiny = collector(1, b"k", tiny(&[5; 20]));
    assert!(matches!(bigger_tiny.value(), EntryValue::Small { value } if value.len() == 20));
    let small_inline = collector(1, b"k", CollectorEntryValue::Small { value: boxed(b"xy") });
    assert!(matches!(small_inline.value(), EntryValue::Inline { value } if value == b"xy"));
    let small = collector(1, b"k", CollectorEntryValue::Small { value: boxed(&[3; 40]) });
    assert!(matches!(small.value(), EntryValue::Small { value } if value.len() == 40));
    let medium = collector(1, b"k", CollectorEntryValue::Medium { value: boxed(&[3; 9000]) });
    assert!(matches!(medium.value(), EntryValue::Medium { value } if value.len() == 9000));
    let large = collector(1, b"k", CollectorEntryValue::Large { blob: 12 });
    assert!(matches!(large.value(), EntryValue::Large { blob: 12 }));
    let deleted = collector(1, b"k", CollectorEntryValue::Deleted);
    assert!(matches!(deleted.value(), EntryValue::Deleted));
}

#[test]
fn storage_class_agrees_with_size_queries() {
    for v in [
        tiny(&[1; 3]),
        tiny(&[1; 20]),
        CollectorEntryValue::Small { value: boxed(&[1; 50]) },
        CollectorEntryValue::Medium { value: boxed(&[1; 5000]) },
        CollectorEntryValue::Large { blob: 3 },
        CollectorEntryValue::Deleted,
    ] {
        let e = collector(1, b"k", v);
        let small = matches!(e.value(), EntryValue::Small { .. });
        let medium = matches!(e.value(), EntryValue::Medium { .. });
        assert_eq!(e.value.is_medium_value(), medium);
        assert_eq!(e.value.small_value_size() != 0, small);
    }
}

fn slice(bytes: &[u8]) -> LazyLookupValue<'static> {
    LazyLookupValue::Eager(LookupValue::Slice {
        value: bytes.to_vec(),
    })
}

#[test]
fn lookup_value_sizes() {
    static BLOCK: [u8; 4] = [1, 2, 3, 4];
    let medium = LazyLookupValue::Medium {
        uncompressed_size: 70000,
        block: &BLOCK,
    };
    assert_eq!(slice(b"abc").uncompressed_size_in_sst(), 3);
    assert_eq!(LazyLookupValue::Eager(LookupValue::Deleted).uncompressed_size_in_sst(), 0);
    assert_eq!(
        LazyLookupValue::Eager(LookupValue::Blob { sequence_number: 3 }).uncompressed_size_in_sst(),
        0
    );
    assert_eq!(medium.uncompressed_size_in_sst(), 70000);

    assert!(medium.is_medium_value());
    assert!(slice(&vec![0; MAX_SMALL_VALUE_SIZE + 1]).is_medium_value());
    assert!(!slice(&vec![0; MAX_SMALL_VALUE_SIZE]).is_medium_value());
    assert!(!LazyLookupValue::Eager(LookupValue::Deleted).is_medium_value());

    assert_eq!(slice(&[0; MAX_INLINE_VALUE_SIZE]).small_value_size(), 0);
    assert_eq!(slice(&[0; MAX_INLINE_VALUE_SIZE + 1]).small_value_size(), MAX_INLINE_VALUE_SIZE + 1);
    assert_eq!(slice(&vec![0; MAX_SMALL_VALUE_SIZE]).small_value_size(), MAX_SMALL_VALUE_SIZE);
    assert_eq!(slice(&vec![0; MAX_SMALL_VALUE_SIZE + 1]).small_value_size(), 0);
    assert_eq!(medium.small_value_size(), 0);
}

#[test]
fn lookup_value_category() {
    static BLOCK: [u8; 2] = [8, 8];
    assert!(matches!(
        LazyLookupValue::Eager(LookupValue::Deleted).category(),
        ValueCategory::Deleted
    ));
    assert!(matches!(slice(b"zz").category(), ValueCategory::ByteContent(b) if b == b"zz"));
    assert!(matches!(
        LazyLookupValue::Medium { uncompressed_size: 10, block: &BLOCK }.category(),
        ValueCategory::ByteContent(b) if b == [8, 8]
    ));
    assert!(matches!(
        LazyLookupValue::Eager(LookupValue::Blob { sequence_number: 6 }).category(),
        ValueCategory::Blob(6)
    ));
}

#[test]
fn lookup_entry_methods() {
    static BLOCK: [u8; 1] = [0];
    let entry = |hash: u64, key: &[u8], value: LazyLookupValue<'static>| LookupEntry {
        hash,
        key: key.to_vec(),
        value,
    };
    let a = entry(1, b"k", slice(b"v"));
    let d = entry(1, b"k", LazyLookupValue::Eager(LookupValue::Deleted));
    let m = entry(1, b"k", LazyLookupValue::Medium { uncompressed_size: 99, block: &BLOCK });
    assert_eq!(a.cmp_key(&d), Ordering::Equal);
    assert_eq!(d.cmp_entry(&a), Ordering::Less);
    assert!(d.is_deleted());
    assert!(!m.is_deleted());
    assert_eq!(m.entry_size(), (1, 99));
    assert_eq!(a.key_hash(), 1);
    assert_eq!(a.key_len(), 1);
    let mut buf = Vec::new();
    a.write_key_to(&mut buf);
    assert_eq!(buf, b"k".to_vec());
    assert!(matches!(a.value(), EntryValue::Inline { value } if value == b"v"));
    let s = entry(1, b"k", slice(&[1; 100]));
    assert!(matches!(s.value(), EntryValue::Small { value } if value.len() == 100));
    let big = entry(1, b"k", slice(&vec![1; MAX_SMALL_VALUE_SIZE + 1]));
    assert!(matches!(big.value(), EntryValue::Medium { .. }));
    assert!(matches!(m.value(), EntryValue::MediumCompressed { uncompressed_size: 99, .. }));
    assert!(matches!(d.value(), EntryValue::Deleted));
    let blob = entry(1, b"k", LazyLookupValue::Eager(LookupValue::Blob { sequence_number: 4 }));
    assert!(matches!(blob.value(), EntryValue::Large { blob: 4 }));
}

#[test]
fn byte_and_key_comparisons() {
    assert_eq!(compare_bytes(b"", b""), Ordering::Equal);
    assert_eq!(compare_bytes(b"", b"a"), Ordering::Less);
    assert_eq!(compare_bytes(b"ab", b"a"), Ordering::Greater);
    assert_eq!(compare_bytes(b"abc", b"abd"), Ordering::Less);
    assert_eq!(compare_keys(1, b"z", 2, b"a"), Ordering::Less);
    assert_eq!(compare_keys(2, b"a", 2, b"a"), Ordering::Equal);
    assert_eq!(compare_keys(2, b"b", 2, b"a"), Ordering::Greater);
    assert_eq!(then_compare(Ordering::Equal, Ordering::Greater), Ordering::Greater);
    assert_eq!(then_compare(Ordering::Less, Ordering::Greater), Ordering::Less);
    assert_eq!(ValueCategory::Blob(1).compare(&ValueCategory::Deleted), Ordering::Greater);
    assert_eq!(
        ValueCategory::ByteContent(b"a").compare(&ValueCategory::ByteContent(b"a")),
        Ordering::Equal
    );
}
