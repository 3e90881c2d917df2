//! Entries that can be sorted and deduplicated for SST storage, and the
//! vocabulary in which the contracts over sequences of them are stated.
use std::cmp::Ordering;
use vstd::prelude::*;

use crate::order::{CategoryView, EntryView, KeyView, key_order, view_lt, view_order};

verus! {

/// Trait for entries that can be sorted and deduplicated for SST storage.
///
/// Both write-path (`CollectorEntry`) and merge-path (`LookupEntry`) entries
/// implement this so that the sort and dedup algorithms can be shared.
pub trait SortableEntry: Sized {
    /// The key of the entry.
    spec fn key_view(&self) -> KeyView;

    /// The category of the entry's value.
    spec fn category_view(&self) -> CategoryView;

    /// `(key_size, value_size)` of the entry.
    spec fn size_view(&self) -> (usize, usize);

    /// What the methods need of the entry's representation.
    spec fn well_formed(&self) -> bool;

    /// Compare only the key portion of two entries.
    fn cmp_key(&self, other: &Self) -> (r: Ordering)
        requires
            self.well_formed(),
            other.well_formed(),
        ensures
            r == key_order(self.key_view(), other.key_view()),
    ;

    /// Compare two entries by key, then by the category of their values.
    fn cmp_entry(&self, other: &Self) -> (r: Ordering)
        requires
            self.well_formed(),
            other.well_formed(),
        ensures
            r == view_order(
                (self.key_view(), self.category_view()),
                (other.key_view(), other.category_view()),
            ),
    ;

    /// Returns true if this entry is a deletion tombstone.
    fn is_deleted(&self) -> (r: bool)
        requires
            self.well_formed(),
        ensures
            r == (self.category_view() is Deleted),
    ;

    /// Returns `(key_size, value_size)` for this entry.
    fn entry_size(&self) -> (r: (usize, usize))
        requires
            self.well_formed(),
        ensures
            r == self.size_view(),
    ;
}

/// Cumulative sizes of entries removed by `sort_and_dedup`.
pub struct DroppedSize {
    pub key_size: usize,
    pub value_size: usize,
}

/// The key and category of an entry.
pub open spec fn entry_view<E: SortableEntry>(e: E) -> EntryView {
    (e.key_view(), e.category_view())
}

/// The part of an entry that a sort looks at: the key alone, or the key and the
/// category of the value. A key-only view puts `Deleted` in the category slot,
/// so that both orders are the one order on `EntryView`.
pub open spec fn sort_view<E: SortableEntry>(e: E, by_value: bool) -> EntryView {
    if by_value {
        entry_view(e)
    } else {
        (e.key_view(), CategoryView::Deleted)
    }
}

/// `s` is in non-decreasing order.
pub open spec fn sorted_by<E: SortableEntry>(s: Seq<E>, by_value: bool) -> bool {
    forall|i: int, j: int|
        0 <= i < j < s.len() ==> !view_lt(
            #[trigger] sort_view(s[j], by_value),
            #[trigger] sort_view(s[i], by_value),
        )
}

/// `s` is in strictly increasing order: no two entries share a view.
pub open spec fn strictly_sorted_by<E: SortableEntry>(s: Seq<E>, by_value: bool) -> bool {
    forall|i: int, j: int|
        0 <= i < j < s.len() ==> view_lt(
            #[trigger] sort_view(s[i], by_value),
            #[trigger] sort_view(s[j], by_value),
        )
}

/// The predicate "the entry's view is `v`".
pub open spec fn has_view<E: SortableEntry>(by_value: bool, v: EntryView) -> spec_fn(E) -> bool {
    |e: E| sort_view(e, by_value) == v
}

/// The entries of `s` whose view is `v`, in the order of `s`.
pub open spec fn members<E: SortableEntry>(s: Seq<E>, by_value: bool, v: EntryView) -> Seq<E> {
    s.filter(has_view(by_value, v))
}

/// The predicate "the entry's key is `k`".
pub open spec fn has_key<E: SortableEntry>(k: KeyView) -> spec_fn(E) -> bool {
    |e: E| e.key_view() == k
}

/// The entries of `s` with key `k`, in the order of `s`.
pub open spec fn key_group<E: SortableEntry>(s: Seq<E>, k: KeyView) -> Seq<E> {
    s.filter(has_key(k))
}

/// The predicate "the entry's value has category `c`".
pub open spec fn has_category<E: SortableEntry>(c: CategoryView) -> spec_fn(E) -> bool {
    |e: E| e.category_view() == c
}

/// The entries of `s` whose value has category `c`, in the order of `s`.
pub open spec fn category_group<E: SortableEntry>(s: Seq<E>, c: CategoryView) -> Seq<E> {
    s.filter(has_category(c))
}

/// The last element of `s` alone, or nothing if `s` is empty.
pub open spec fn last_of<E>(s: Seq<E>) -> Seq<E> {
    if s.len() == 0 {
        s
    } else {
        seq![s.last()]
    }
}

/// The first element of `s` alone, or nothing if `s` is empty.
pub open spec fn first_of<E>(s: Seq<E>) -> Seq<E> {
    if s.len() == 0 {
        s
    } else {
        seq![s[0]]
    }
}

/// `s` holds a deletion tombstone.
pub open spec fn has_tombstone<E: SortableEntry>(s: Seq<E>) -> bool {
    exists|i: int| 0 <= i < s.len() && (#[trigger] s[i].category_view() is Deleted)
}

/// The entries of `g` that a tombstone does not cancel: those from the last
/// tombstone on, or all of `g` if it holds none.
pub open spec fn live_entries<E: SortableEntry>(g: Seq<E>) -> Seq<E>
    decreases g.len(),
{
    if g.len() == 0 {
        g
    } else if has_tombstone(g.drop_first()) {
        live_entries(g.drop_first())
    } else {
        g
    }
}

/// Sum of the key sizes (`values == false`) or value sizes of the entries of `s`.
pub open spec fn total_size<E: SortableEntry>(s: Seq<E>, values: bool) -> nat
    decreases s.len(),
{
    if s.len() == 0 {
        0
    } else {
        total_size(s.drop_last(), values) + (if values {
            s.last().size_view().1
        } else {
            s.last().size_view().0
        }) as nat
    }
}

/// Every entry of `s` is well formed.
pub open spec fn all_well_formed<E: SortableEntry>(s: Seq<E>) -> bool {
    forall|i: int| 0 <= i < s.len() ==> (#[trigger] s[i]).well_formed()
}

pub proof fn lemma_total_size_add<E: SortableEntry>(a: Seq<E>, b: Seq<E>, values: bool)
    ensures
        total_size(a + b, values) == total_size(a, values) + total_size(b, values),
    decreases b.len(),
{
    if b.len() == 0 {
        assert(a + b =~= a);
    } else {
        lemma_total_size_add(a, b.drop_last(), values);
        assert((a + b).drop_last() =~= a + b.drop_last());
    }
}

pub proof fn lemma_total_size_prepend<E: SortableEntry>(x: E, s: Seq<E>, values: bool)
    ensures
        total_size(seq![x] + s, values) == total_size(s, values) + (if values {
            x.size_view().1
        } else {
            x.size_view().0
        }) as nat,
{
    lemma_total_size_add(seq![x], s, values);
    assert(seq![x].drop_last() =~= Seq::<E>::empty());
    assert(total_size(Seq::<E>::empty(), values) == 0);
    assert(seq![x].last() == x);
}

pub proof fn lemma_total_size_reverse<E: SortableEntry>(s: Seq<E>, values: bool)
    ensures
        total_size(s.reverse(), values) == total_size(s, values),
    decreases s.len(),
{
    if s.len() > 0 {
        lemma_total_size_reverse(s.drop_last(), values);
        assert(s.reverse() =~= seq![s.last()] + s.drop_last().reverse());
        lemma_total_size_prepend(s.last(), s.drop_last().reverse(), values);
    }
}

/// Prepending an entry to a sequence prepends it to the members of its view.
pub proof fn lemma_members_prepend<E: SortableEntry>(x: E, s: Seq<E>, by_value: bool, v: EntryView)
    ensures
        members(seq![x] + s, by_value, v) == (if sort_view(x, by_value) == v {
            seq![x] + members(s, by_value, v)
        } else {
            members(s, by_value, v)
        }),
{
    s.lemma_filter_prepend(x, has_view(by_value, v));
    assert(Seq::<E>::empty() + members(s, by_value, v) =~= members(s, by_value, v));
}

} // verus!
