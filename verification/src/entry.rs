//! What the SST builder asks of an entry: its key and how its value is stored.
use vstd::prelude::*;

verus! {

/// How the value of an entry is stored in an SST file.
#[derive(Clone, Copy, Debug)]
pub enum EntryValue<'a> {
    /// Stored inline, in the key block.
    Inline { value: &'a [u8] },
    /// Stored in a shared small value block.
    Small { value: &'a [u8] },
    /// Stored in a value block of its own.
    Medium { value: &'a [u8] },
    /// A value block of its own that is already compressed.
    MediumCompressed { uncompressed_size: u32, block: &'a [u8] },
    /// Stored in a blob file with this sequence number.
    Large { blob: u32 },
    /// A deletion tombstone.
    Deleted,
}

/// Abstract form of `EntryValue`.
pub enum EntryValueView {
    Inline(Seq<u8>),
    Small(Seq<u8>),
    Medium(Seq<u8>),
    MediumCompressed(u32, Seq<u8>),
    Large(u32),
    Deleted,
}

impl<'a> View for EntryValue<'a> {
    type V = EntryValueView;

    open spec fn view(&self) -> EntryValueView {
        match *self {
            EntryValue::Inline { value } => EntryValueView::Inline(value@),
            EntryValue::Small { value } => EntryValueView::Small(value@),
            EntryValue::Medium { value } => EntryValueView::Medium(value@),
            EntryValue::MediumCompressed { uncompressed_size, block } => {
                EntryValueView::MediumCompressed(uncompressed_size, block@)
            },
            EntryValue::Large { blob } => EntryValueView::Large(blob),
            EntryValue::Deleted => EntryValueView::Deleted,
        }
    }
}

/// An entry that can be written to an SST file.
pub trait Entry {
    /// The bytes of the key, without its hash.
    spec fn key_bytes(&self) -> Seq<u8>;

    /// The hash of the key.
    spec fn spec_key_hash(&self) -> u64;

    /// How the value is stored.
    spec fn value_view(&self) -> EntryValueView;

    /// What the methods need of the entry's representation.
    spec fn entry_well_formed(&self) -> bool;

    /// Returns the hash of the key.
    fn key_hash(&self) -> (r: u64)
        ensures
            r == self.spec_key_hash(),
    ;

    /// Returns the length of the key in bytes.
    fn key_len(&self) -> (r: usize)
        ensures
            r == self.key_bytes().len(),
    ;

    /// Appends the key bytes to `buf`.
    fn write_key_to(&self, buf: &mut Vec<u8>)
        ensures
            final(buf)@ == old(buf)@ + self.key_bytes(),
    ;

    /// Returns how the value is stored.
    fn value(&self) -> (r: EntryValue<'_>)
        requires
            self.entry_well_formed(),
        ensures
            r@ == self.value_view(),
    ;
}

} // verus!
