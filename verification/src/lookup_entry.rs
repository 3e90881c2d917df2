//! Entries of the read and merge path, as looked up in SST files.
use std::cmp::Ordering;
use vstd::prelude::*;

use crate::constants::{MAX_INLINE_VALUE_SIZE, MAX_SMALL_VALUE_SIZE};
use crate::collector_entry::stored_len;
use crate::entry::{Entry, EntryValue, EntryValueView};
use crate::order::{
    CategoryView,
    KeyView,
    ValueCategory,
    compare_keys,
    first_difference_below,
    key_order,
    law_key_order,
    lemma_view_order_composed,
    then_compare,
};
use crate::sortable::SortableEntry;

pub use crate::sort_dedup::sort_and_dedup;

verus! {

/// A value from an SST file lookup.
#[derive(PartialEq, Eq, Debug)]
pub enum LookupValue {
    /// The value was deleted.
    Deleted,
    /// The value is stored in the SST file, in a key block or a value block.
    Slice { value: Vec<u8> },
    /// The value is stored in a blob file.
    Blob { sequence_number: u32 },
}

/// A value from an SST file lookup, possibly still compressed.
pub enum LazyLookupValue<'l> {
    /// A looked-up value.
    Eager(LookupValue),
    /// A medium sized value that is still compressed.
    Medium { uncompressed_size: u32, block: &'l [u8] },
}

impl<'l> LazyLookupValue<'l> {
    /// The size of the value in the SST file, uncompressed.
    pub open spec fn spec_uncompressed_size(&self) -> nat {
        match *self {
            LazyLookupValue::Eager(LookupValue::Slice { value }) => value@.len(),
            LazyLookupValue::Eager(LookupValue::Deleted) => 0,
            LazyLookupValue::Eager(LookupValue::Blob { .. }) => 0,
            LazyLookupValue::Medium { uncompressed_size, .. } => uncompressed_size as nat,
        }
    }

    /// The value gets a value block of its own.
    pub open spec fn spec_is_medium(&self) -> bool {
        match *self {
            LazyLookupValue::Eager(LookupValue::Slice { value }) => value@.len() > MAX_SMALL_VALUE_SIZE,
            LazyLookupValue::Medium { .. } => true,
            _ => false,
        }
    }

    /// The size of the value if it is packed into a small value block, or 0.
    pub open spec fn spec_small_value_size(&self) -> nat {
        match *self {
            LazyLookupValue::Eager(LookupValue::Slice { value }) => if MAX_INLINE_VALUE_SIZE
                < value@.len() <= MAX_SMALL_VALUE_SIZE {
                value@.len()
            } else {
                0
            },
            _ => 0,
        }
    }

    /// The category the value sorts by. For a compressed value the compressed
    /// bytes stand for the value: a consistent total order, though a slice and a
    /// compressed block of the same value do not compare equal.
    pub open spec fn category_view(&self) -> CategoryView {
        match *self {
            LazyLookupValue::Eager(LookupValue::Deleted) => CategoryView::Deleted,
            LazyLookupValue::Eager(LookupValue::Slice { value }) => CategoryView::ByteContent(value@),
            LazyLookupValue::Medium { block, .. } => CategoryView::ByteContent(block@),
            LazyLookupValue::Eager(LookupValue::Blob { sequence_number }) => CategoryView::Blob(
                sequence_number,
            ),
        }
    }

    /// Returns the size of the value in the SST file.
    pub fn uncompressed_size_in_sst(&self) -> (r: usize)
        ensures
            r == self.spec_uncompressed_size(),
    {
        match self {
            LazyLookupValue::Eager(LookupValue::Slice { value }) => value.len(),
            LazyLookupValue::Eager(LookupValue::Deleted) => 0,
            LazyLookupValue::Eager(LookupValue::Blob { .. }) => 0,
            LazyLookupValue::Medium { uncompressed_size, .. } => *uncompressed_size as usize,
        }
    }

    /// Returns true if this value gets its own dedicated value block.
    pub fn is_medium_value(&self) -> (r: bool)
        ensures
            r == self.spec_is_medium(),
    {
        match self {
            LazyLookupValue::Eager(LookupValue::Slice { value }) => value.len() > MAX_SMALL_VALUE_SIZE,
            LazyLookupValue::Medium { .. } => true,
            _ => false,
        }
    }

    /// Returns the value size if it will be packed into a small value block, or 0 otherwise.
    pub fn small_value_size(&self) -> (r: usize)
        ensures
            r == self.spec_small_value_size(),
    {
        match self {
            LazyLookupValue::Eager(LookupValue::Slice { value }) => {
                if value.len() > MAX_INLINE_VALUE_SIZE && value.len() <= MAX_SMALL_VALUE_SIZE {
                    value.len()
                } else {
                    0
                }
            },
            _ => 0,
        }
    }

    /// Classify this value for sort ordering purposes.
    pub fn category(&self) -> (r: ValueCategory<'_>)
        ensures
            r@ == self.category_view(),
    {
        match self {
            LazyLookupValue::Eager(LookupValue::Deleted) => ValueCategory::Deleted,
            LazyLookupValue::Eager(LookupValue::Slice { value }) => ValueCategory::ByteContent(
                value.as_slice(),
            ),
            LazyLookupValue::Medium { block, .. } => ValueCategory::ByteContent(block),
            LazyLookupValue::Eager(LookupValue::Blob { sequence_number }) => ValueCategory::Blob(
                *sequence_number,
            ),
        }
    }
}

/// An entry from an SST file lookup.
pub struct LookupEntry<'l> {
    /// The hash of the key.
    pub hash: u64,
    /// The key.
    pub key: Vec<u8>,
    /// The value.
    pub value: LazyLookupValue<'l>,
}

impl<'l> SortableEntry for LookupEntry<'l> {
    open spec fn key_view(&self) -> KeyView {
        (self.hash, self.key@)
    }

    open spec fn category_view(&self) -> CategoryView {
        self.value.category_view()
    }

    open spec fn size_view(&self) -> (usize, usize) {
        (self.key@.len() as usize, self.value.spec_uncompressed_size() as usize)
    }

    open spec fn well_formed(&self) -> bool {
        true
    }

    fn cmp_key(&self, other: &Self) -> (r: Ordering) {
        compare_keys(self.hash, self.key.as_slice(), other.hash, other.key.as_slice())
    }

    fn cmp_entry(&self, other: &Self) -> (r: Ordering) {
        proof {
            lemma_view_order_composed(
                (self.key_view(), self.category_view()),
                (other.key_view(), other.category_view()),
            );
        }
        then_compare(self.cmp_key(other), self.value.category().compare(&other.value.category()))
    }

    fn is_deleted(&self) -> (r: bool) {
        match self.value {
            LazyLookupValue::Eager(LookupValue::Deleted) => true,
            _ => false,
        }
    }

    fn entry_size(&self) -> (r: (usize, usize)) {
        (self.key.len(), self.value.uncompressed_size_in_sst())
    }
}

impl<'l> LookupEntry<'l> {
    /// How the value is stored in an SST file.
    pub open spec fn spec_value(&self) -> EntryValueView {
        match self.value {
            LazyLookupValue::Eager(LookupValue::Deleted) => EntryValueView::Deleted,
            LazyLookupValue::Eager(LookupValue::Slice { value }) => if value@.len()
                <= MAX_INLINE_VALUE_SIZE {
                EntryValueView::Inline(value@)
            } else if value@.len() > MAX_SMALL_VALUE_SIZE {
                EntryValueView::Medium(value@)
            } else {
                EntryValueView::Small(value@)
            },
            LazyLookupValue::Eager(LookupValue::Blob { sequence_number }) => EntryValueView::Large(
                sequence_number,
            ),
            LazyLookupValue::Medium { uncompressed_size, block } => EntryValueView::MediumCompressed(
                uncompressed_size,
                block@,
            ),
        }
    }
}

impl<'l> Entry for LookupEntry<'l> {
    open spec fn key_bytes(&self) -> Seq<u8> {
        self.key@
    }

    open spec fn spec_key_hash(&self) -> u64 {
        self.hash
    }

    open spec fn value_view(&self) -> EntryValueView {
        self.spec_value()
    }

    open spec fn entry_well_formed(&self) -> bool {
        true
    }

    fn key_hash(&self) -> (r: u64) {
        self.hash
    }

    fn key_len(&self) -> (r: usize) {
        self.key.len()
    }

    fn write_key_to(&self, buf: &mut Vec<u8>) {
        buf.extend_from_slice(self.key.as_slice());
        proof {
            assert(final(buf)@ =~= old(buf)@ + self.key@);
        }
    }

    fn value(&self) -> (r: EntryValue<'_>) {
        match &self.value {
            LazyLookupValue::Eager(LookupValue::Deleted) => EntryValue::Deleted,
            LazyLookupValue::Eager(LookupValue::Slice { value }) => {
                if value.len() <= MAX_INLINE_VALUE_SIZE {
                    EntryValue::Inline { value: value.as_slice() }
                } else if value.len() > MAX_SMALL_VALUE_SIZE {
                    EntryValue::Medium { value: value.as_slice() }
                } else {
                    EntryValue::Small { value: value.as_slice() }
                }
            },
            LazyLookupValue::Eager(LookupValue::Blob { sequence_number }) => EntryValue::Large {
                blob: *sequence_number,
            },
            LazyLookupValue::Medium { uncompressed_size, block } => EntryValue::MediumCompressed {
                uncompressed_size: *uncompressed_size,
                block,
            },
        }
    }
}

/// How a looked-up value is stored agrees with what the block builders are told
/// of it: it gets a value block of its own exactly when `is_medium_value` says
/// so, `small_value_size` is the size of a value packed into a shared small block
/// and 0 otherwise, and `uncompressed_size_in_sst` is the length of what is stored.
pub proof fn law_storage_class_agrees(e: LookupEntry)
    ensures
        e.value.spec_is_medium() == (e.spec_value() is Medium || e.spec_value() is MediumCompressed),
        e.value.spec_small_value_size() == (match e.spec_value() {
            EntryValueView::Small(b) => b.len(),
            _ => 0,
        }),
        e.value.spec_uncompressed_size() == stored_len(e.spec_value()),
{
}

/// Looked-up entries compare by key as the table lays them out: by hash first,
/// and only entries of equal hash by their key bytes, lexicographically.
pub proof fn law_lookup_key_order(a: LookupEntry, b: LookupEntry)
    ensures
        a.hash < b.hash ==> key_order(a.key_view(), b.key_view()) == Ordering::Less,
        a.hash > b.hash ==> key_order(a.key_view(), b.key_view()) == Ordering::Greater,
        a.hash == b.hash ==> key_order(a.key_view(), b.key_view()) == (if a.key@ == b.key@ {
            Ordering::Equal
        } else if first_difference_below(a.key@, b.key@) {
            Ordering::Less
        } else {
            Ordering::Greater
        }),
{
    law_key_order(a.key_view(), b.key_view());
}

/// A looked-up value sorts by what it holds: a tombstone as a tombstone, a slice
/// by its bytes, a compressed value by its compressed block, a blob by its
/// sequence number.
pub proof fn law_lookup_value_category(v: LazyLookupValue)
    ensures
        match v {
            LazyLookupValue::Eager(LookupValue::Deleted) => v.category_view() == CategoryView::Deleted,
            LazyLookupValue::Eager(LookupValue::Slice { value }) => v.category_view()
                == CategoryView::ByteContent(value@),
            LazyLookupValue::Eager(LookupValue::Blob { sequence_number }) => v.category_view()
                == CategoryView::Blob(sequence_number),
            LazyLookupValue::Medium { block, .. } => v.category_view() == CategoryView::ByteContent(
                block@,
            ),
        },
{
}

/// The sizes a looked-up entry reports are the length of its key and the
/// uncompressed length of its value (0 for a tombstone or a blob). (Every
/// vector's length fits in a `usize`.)
pub proof fn law_lookup_entry_sizes(e: LookupEntry)
    requires
        e.key@.len() <= usize::MAX,
        e.value matches LazyLookupValue::Eager(LookupValue::Slice { value }) ==> value@.len()
            <= usize::MAX,
    ensures
        e.size_view().0 == e.key@.len(),
        e.size_view().1 == (match e.value {
            LazyLookupValue::Eager(LookupValue::Slice { value }) => value@.len(),
            LazyLookupValue::Medium { uncompressed_size, .. } => uncompressed_size as nat,
            _ => 0,
        }),
{
}

/// A looked-up value is stored as what it holds: a slice with its own bytes
/// (inline up to the inline limit, in a block of its own above the small
/// limit, in a shared small block between), a compressed value as its block
/// with its uncompressed size, a blob by its sequence number, a tombstone as a
/// tombstone.
pub proof fn law_lookup_stored_value(e: LookupEntry)
    ensures
        match e.value {
            LazyLookupValue::Eager(LookupValue::Slice { value }) => {
                &&& value@.len() <= MAX_INLINE_VALUE_SIZE ==> e.spec_value() == EntryValueView::Inline(value@)
                &&& MAX_INLINE_VALUE_SIZE < value@.len() <= MAX_SMALL_VALUE_SIZE ==> e.spec_value()
                    == EntryValueView::Small(value@)
                &&& value@.len() > MAX_SMALL_VALUE_SIZE ==> e.spec_value() == EntryValueView::Medium(value@)
            },
            LazyLookupValue::Eager(LookupValue::Deleted) => e.spec_value() == EntryValueView::Deleted,
            LazyLookupValue::Eager(LookupValue::Blob { sequence_number }) => e.spec_value()
                == EntryValueView::Large(sequence_number),
            LazyLookupValue::Medium { uncompressed_size, block } => e.spec_value()
                == EntryValueView::MediumCompressed(uncompressed_size, block@),
        },
{
}

/// The key an entry hands to the table builder is its key's bytes, without the
/// hash, which is handed over on its own.
pub proof fn law_lookup_entry_key(e: LookupEntry)
    ensures
        e.key_bytes() == e.key@,
        e.spec_key_hash() == e.hash,
        e.key_view() == (e.hash, e.key@),
{
}

} // verus!
