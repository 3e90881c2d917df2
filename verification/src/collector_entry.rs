//! Entries of the write path, as collected before they are written.
use std::cmp::Ordering;
use vstd::prelude::*;

use crate::constants::MAX_INLINE_VALUE_SIZE;
use crate::entry::{Entry, EntryValue, EntryValueView};
use crate::order::{
    CategoryView,
    KeyView,
    category_order,
    compare_keys,
    first_difference_below,
    key_order,
    law_key_order,
    lemma_view_order_composed,
    then_compare,
    view_order,
};
pub use crate::order::ValueCategory;
pub use crate::sort_dedup::sort_and_dedup;
pub use crate::sortable::{DroppedSize, SortableEntry};

verus! {

broadcast use vstd::layout::group_layout_axioms;

/// The size threshold for inline storage in `CollectorEntryValue`: this is the
/// largest value that can be stored inline without inflating the size of the enum.
pub const TINY_VALUE_THRESHOLD: usize = 22;

/// The value of a collected entry.
pub enum CollectorEntryValue {
    /// Tiny value stored inline (at most `TINY_VALUE_THRESHOLD` bytes, no heap allocation):
    /// the first `len` bytes of `value`.
    Tiny { value: [u8; TINY_VALUE_THRESHOLD], len: u8 },
    /// Small value that fits in shared value blocks.
    Small { value: Box<[u8]> },
    /// Medium value that gets its own value block.
    Medium { value: Box<[u8]> },
    /// Large value stored in a blob file.
    Large { blob: u32 },
    /// Deletion tombstone.
    Deleted,
}

impl CollectorEntryValue {
    /// A tiny value's length does not exceed its buffer.
    pub open spec fn wf(&self) -> bool {
        match *self {
            CollectorEntryValue::Tiny { len, .. } => len <= TINY_VALUE_THRESHOLD,
            _ => true,
        }
    }

    /// The bytes of a byte-content value; none for a blob or a tombstone.
    pub open spec fn bytes_view(&self) -> Option<Seq<u8>> {
        match *self {
            CollectorEntryValue::Tiny { value, len } => Some(value@.take(len as int)),
            CollectorEntryValue::Small { value } => Some(value@),
            CollectorEntryValue::Medium { value } => Some(value@),
            CollectorEntryValue::Large { .. } => None,
            CollectorEntryValue::Deleted => None,
        }
    }

    /// The length of the value's bytes, 0 for a blob or a tombstone.
    pub open spec fn spec_len(&self) -> nat {
        match *self {
            CollectorEntryValue::Tiny { len, .. } => len as nat,
            CollectorEntryValue::Small { value } => value@.len(),
            CollectorEntryValue::Medium { value } => value@.len(),
            CollectorEntryValue::Large { .. } => 0,
            CollectorEntryValue::Deleted => 0,
        }
    }

    /// The category the value sorts by.
    pub open spec fn category_view(&self) -> CategoryView {
        match *self {
            CollectorEntryValue::Deleted => CategoryView::Deleted,
            CollectorEntryValue::Large { blob } => CategoryView::Blob(blob),
            _ => CategoryView::ByteContent(self.bytes_view().unwrap()),
        }
    }

    /// The size of the value if it is packed into a small value block, or 0.
    pub open spec fn spec_small_value_size(&self) -> nat {
        match *self {
            CollectorEntryValue::Tiny { len, .. } => if len > MAX_INLINE_VALUE_SIZE {
                len as nat
            } else {
                0
            },
            CollectorEntryValue::Small { value } => value@.len(),
            _ => 0,
        }
    }

    /// Length of the value in bytes (0 for blobs and tombstones).
    pub fn len(&self) -> (r: usize)
        ensures
            r == self.spec_len(),
    {
        match self {
            CollectorEntryValue::Tiny { len, .. } => *len as usize,
            CollectorEntryValue::Small { value } => value.len(),
            CollectorEntryValue::Medium { value } => value.len(),
            CollectorEntryValue::Large { blob: _ } => 0,
            CollectorEntryValue::Deleted => 0,
        }
    }

    /// Returns true if this value gets its own dedicated value block.
    pub fn is_medium_value(&self) -> (r: bool)
        ensures
            r == (self is Medium),
    {
        match self {
            CollectorEntryValue::Medium { .. } => true,
            _ => false,
        }
    }

    /// Returns the value size if it will be packed into a small value block, or 0 otherwise.
    pub fn small_value_size(&self) -> (r: usize)
        ensures
            r == self.spec_small_value_size(),
    {
        match self {
            CollectorEntryValue::Tiny { len, .. } => {
                if (*len as usize) > MAX_INLINE_VALUE_SIZE {
                    *len as usize
                } else {
                    0
                }
            },
            CollectorEntryValue::Small { value } => value.len(),
            _ => 0,
        }
    }

    /// Returns the byte slice for byte-content values, or `None` for Large/Deleted.
    pub fn as_bytes(&self) -> (r: Option<&[u8]>)
        requires
            self.wf(),
        ensures
            r is Some == self.bytes_view() is Some,
            r matches Some(b) ==> b@ == self.bytes_view().unwrap(),
    {
        match self {
            CollectorEntryValue::Tiny { value, len } => {
                let all: &[u8] = value.as_slice();
                Some(&all[0..(*len as usize)])
            },
            CollectorEntryValue::Small { value } => Some(value),
            CollectorEntryValue::Medium { value } => Some(value),
            CollectorEntryValue::Large { .. } => None,
            CollectorEntryValue::Deleted => None,
        }
    }

    /// Classify this value for sort ordering purposes.
    pub fn category(&self) -> (r: ValueCategory<'_>)
        requires
            self.wf(),
        ensures
            r@ == self.category_view(),
    {
        match self {
            CollectorEntryValue::Deleted => ValueCategory::Deleted,
            CollectorEntryValue::Large { blob } => ValueCategory::Blob(*blob),
            _ => ValueCategory::ByteContent(self.as_bytes().unwrap()),
        }
    }

    /// Three-way comparison of two values by their categories: the same bytes
    /// compare equal whichever variant holds them.
    pub fn compare(&self, other: &CollectorEntryValue) -> (r: Ordering)
        requires
            self.wf(),
            other.wf(),
        ensures
            r == category_order(self.category_view(), other.category_view()),
    {
        self.category().compare(&other.category())
    }
}

/// The key of a collected entry: its hash and its bytes.
pub struct EntryKey {
    pub hash: u64,
    pub data: Vec<u8>,
}

impl EntryKey {
    /// The abstract key.
    pub open spec fn key_view(&self) -> KeyView {
        (self.hash, self.data@)
    }

    /// The key's length with its hash fits in a `usize`.
    pub open spec fn wf(&self) -> bool {
        self.data@.len() + 8 <= usize::MAX
    }

    /// Length of the key with its hash, in bytes.
    pub fn len(&self) -> (r: usize)
        requires
            self.wf(),
        ensures
            r == self.data@.len() + 8,
    {
        std::mem::size_of::<u64>() + self.data.len()
    }

    /// Three-way comparison of keys: by hash, then by bytes.
    pub fn compare(&self, other: &EntryKey) -> (r: Ordering)
        ensures
            r == key_order(self.key_view(), other.key_view()),
    {
        compare_keys(self.hash, self.data.as_slice(), other.hash, other.data.as_slice())
    }
}

/// An entry of the write path.
pub struct CollectorEntry {
    pub key: EntryKey,
    pub value: CollectorEntryValue,
}

impl CollectorEntry {
    /// Three-way comparison of entries: by key, then by value category.
    pub fn compare(&self, other: &CollectorEntry) -> (r: Ordering)
        requires
            self.value.wf(),
            other.value.wf(),
        ensures
            r == view_order(
                (self.key.key_view(), self.value.category_view()),
                (other.key.key_view(), other.value.category_view()),
            ),
    {
        proof {
            lemma_view_order_composed(
                (self.key.key_view(), self.value.category_view()),
                (other.key.key_view(), other.value.category_view()),
            );
        }
        then_compare(self.key.compare(&other.key), self.value.compare(&other.value))
    }
}

impl SortableEntry for CollectorEntry {
    open spec fn key_view(&self) -> KeyView {
        self.key.key_view()
    }

    open spec fn category_view(&self) -> CategoryView {
        self.value.category_view()
    }

    open spec fn size_view(&self) -> (usize, usize) {
        ((self.key.data@.len() + 8) as usize, self.value.spec_len() as usize)
    }

    open spec fn well_formed(&self) -> bool {
        self.key.wf() && self.value.wf()
    }

    fn cmp_key(&self, other: &Self) -> (r: Ordering) {
        self.key.compare(&other.key)
    }

    fn cmp_entry(&self, other: &Self) -> (r: Ordering) {
        self.compare(other)
    }

    fn is_deleted(&self) -> (r: bool) {
        match self.value {
            CollectorEntryValue::Deleted => true,
            _ => false,
        }
    }

    fn entry_size(&self) -> (r: (usize, usize)) {
        (self.key.len(), self.value.len())
    }
}

impl CollectorEntry {
    /// How the value is stored in an SST file.
    pub open spec fn spec_value(&self) -> EntryValueView {
        match self.value {
            CollectorEntryValue::Tiny { value, len } => if len <= MAX_INLINE_VALUE_SIZE {
                EntryValueView::Inline(value@.take(len as int))
            } else {
                EntryValueView::Small(value@.take(len as int))
            },
            CollectorEntryValue::Small { value } => if value@.len() <= MAX_INLINE_VALUE_SIZE {
                EntryValueView::Inline(value@)
            } else {
                EntryValueView::Small(value@)
            },
            CollectorEntryValue::Medium { value } => EntryValueView::Medium(value@),
            CollectorEntryValue::Large { blob } => EntryValueView::Large(blob),
            CollectorEntryValue::Deleted => EntryValueView::Deleted,
        }
    }
}

impl Entry for CollectorEntry {
    open spec fn key_bytes(&self) -> Seq<u8> {
        self.key.data@
    }

    open spec fn spec_key_hash(&self) -> u64 {
        self.key.hash
    }

    open spec fn value_view(&self) -> EntryValueView {
        self.spec_value()
    }

    open spec fn entry_well_formed(&self) -> bool {
        self.value.wf()
    }

    fn key_hash(&self) -> (r: u64) {
        self.key.hash
    }

    fn key_len(&self) -> (r: usize) {
        self.key.data.len()
    }

    fn write_key_to(&self, buf: &mut Vec<u8>) {
        buf.extend_from_slice(self.key.data.as_slice());
        proof {
            assert(final(buf)@ =~= old(buf)@ + self.key.data@);
        }
    }

    fn value(&self) -> (r: EntryValue<'_>) {
        match &self.value {
            CollectorEntryValue::Tiny { value, len } => {
                let all: &[u8] = value.as_slice();
                let slice = &all[0..(*len as usize)];
                if slice.len() <= MAX_INLINE_VALUE_SIZE {
                    EntryValue::Inline { value: slice }
                } else {
                    EntryValue::Small { value: slice }
                }
            },
            CollectorEntryValue::Small { value } => {
                if value.len() <= MAX_INLINE_VALUE_SIZE {
                    EntryValue::Inline { value }
                } else {
                    EntryValue::Small { value }
                }
            },
            CollectorEntryValue::Medium { value } => EntryValue::Medium { value },
            CollectorEntryValue::Large { blob } => EntryValue::Large { blob: *blob },
            CollectorEntryValue::Deleted => EntryValue::Deleted,
        }
    }
}

/// The length of the bytes that a stored value holds, 0 for a blob or a tombstone.
pub open spec fn stored_len(v: EntryValueView) -> nat {
    match v {
        EntryValueView::Inline(b) => b.len(),
        EntryValueView::Small(b) => b.len(),
        EntryValueView::Medium(b) => b.len(),
        EntryValueView::MediumCompressed(n, _) => n as nat,
        EntryValueView::Large(_) => 0,
        EntryValueView::Deleted => 0,
    }
}

/// The same bytes compare equal whichever variant (tiny, small or medium) holds them.
pub proof fn law_same_bytes_compare_equal(a: CollectorEntryValue, b: CollectorEntryValue)
    requires
        a.bytes_view() is Some,
        a.bytes_view() == b.bytes_view(),
    ensures
        a.category_view() == b.category_view(),
        category_order(a.category_view(), b.category_view()) == Ordering::Equal,
{
    crate::order::lemma_view_order(
        ((0u64, Seq::<u8>::empty()), a.category_view()),
        ((0u64, Seq::<u8>::empty()), a.category_view()),
        ((0u64, Seq::<u8>::empty()), a.category_view()),
    );
}

/// How a collected value is stored agrees with what the block builders are told
/// of it: it gets a value block of its own exactly when `is_medium_value` says
/// so, `small_value_size` is the size of a value packed into a shared small
/// block and 0 otherwise, and `len` is the length of what is stored. This holds
/// unless a `Small` value holds no more bytes than are stored inline.
pub proof fn law_storage_class_agrees(e: CollectorEntry)
    requires
        e.value.wf(),
        !(e.value is Small && 0 < e.value.spec_len() <= MAX_INLINE_VALUE_SIZE),
    ensures
        (e.value is Medium) == (e.spec_value() is Medium),
        e.value.spec_small_value_size() == (match e.spec_value() {
            EntryValueView::Small(b) => b.len(),
            _ => 0,
        }),
        e.value.spec_len() == stored_len(e.spec_value()),
        e.value.bytes_view() matches Some(b) ==> (e.spec_value() matches EntryValueView::Inline(
            s,
        ) ==> s == b),
{
}

/// Collected entries compare by key as the table lays them out: by hash first,
/// and only entries of equal hash by their key bytes, lexicographically.
pub proof fn law_collector_key_order(a: CollectorEntry, b: CollectorEntry)
    ensures
        a.key.hash < b.key.hash ==> key_order(a.key_view(), b.key_view()) == Ordering::Less,
        a.key.hash > b.key.hash ==> key_order(a.key_view(), b.key_view()) == Ordering::Greater,
        a.key.hash == b.key.hash ==> key_order(a.key_view(), b.key_view()) == (if a.key.data@
            == b.key.data@ {
            Ordering::Equal
        } else if first_difference_below(a.key.data@, b.key.data@) {
            Ordering::Less
        } else {
            Ordering::Greater
        }),
{
    law_key_order(a.key_view(), b.key_view());
}

/// The bytes of a value are the first `len` bytes of a tiny value's buffer, or
/// the whole boxed slice of a small or medium value; a blob or a tombstone has
/// none. A value's length is the length of its bytes (0 without bytes), and a
/// value with bytes sorts by exactly those bytes.
pub proof fn law_value_bytes(v: CollectorEntryValue)
    requires
        v.wf(),
    ensures
        match v {
            CollectorEntryValue::Tiny { value, len } => v.bytes_view() == Some(value@.take(len as int)),
            CollectorEntryValue::Small { value } => v.bytes_view() == Some(value@),
            CollectorEntryValue::Medium { value } => v.bytes_view() == Some(value@),
            CollectorEntryValue::Large { blob } => v.bytes_view() is None && v.category_view()
                == CategoryView::Blob(blob),
            CollectorEntryValue::Deleted => v.bytes_view() is None && v.category_view()
                == CategoryView::Deleted,
        },
        v.spec_len() == (match v.bytes_view() {
            Some(b) => b.len(),
            None => 0,
        }),
        v.bytes_view() matches Some(b) ==> v.category_view() == CategoryView::ByteContent(b),
{
}

/// The sizes a collected entry reports are the length of its key with its
/// 8-byte hash and the length of its value's bytes (0 for a blob or a
/// tombstone). (The length of a boxed slice fits in a `usize`.)
pub proof fn law_collector_entry_sizes(e: CollectorEntry)
    requires
        e.well_formed(),
        e.value.spec_len() <= usize::MAX,
    ensures
        e.size_view().0 == e.key.data@.len() + 8,
        e.size_view().1 == (match e.value.bytes_view() {
            Some(b) => b.len(),
            None => 0,
        }),
{
    law_value_bytes(e.value);
}

/// A collected value is stored with its own bytes: inline when they are at most
/// the inline limit (for a tiny or small value), in a shared small block when
/// longer, in a block of its own for a medium value; a blob by its number and a
/// tombstone as a tombstone.
pub proof fn law_collector_stored_value(e: CollectorEntry)
    requires
        e.value.wf(),
    ensures
        match e.spec_value() {
            EntryValueView::Inline(s) => e.value.bytes_view() == Some(s) && !(e.value is Medium) && s.len()
                <= MAX_INLINE_VALUE_SIZE,
            EntryValueView::Small(s) => e.value.bytes_view() == Some(s) && !(e.value is Medium) && s.len()
                > MAX_INLINE_VALUE_SIZE,
            EntryValueView::Medium(s) => e.value.bytes_view() == Some(s) && e.value is Medium,
            EntryValueView::MediumCompressed(_, _) => false,
            EntryValueView::Large(n) => e.value.category_view() == CategoryView::Blob(n),
            EntryValueView::Deleted => e.value.category_view() == CategoryView::Deleted,
        },
        e.value.bytes_view() is None ==> (e.spec_value() is Large || e.spec_value() is Deleted),
{
    law_value_bytes(e.value);
}

/// The key an entry hands to the table builder is its key's bytes, without the
/// hash, which is handed over on its own.
pub proof fn law_collector_entry_key(e: CollectorEntry)
    ensures
        e.key_bytes() == e.key.data@,
        e.spec_key_hash() == e.key.hash,
        e.key_view() == (e.key.hash, e.key.data@),
{
}

} // verus!
