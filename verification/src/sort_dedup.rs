//! Sorting and deduplication of entries according to the family kind, before
//! they are written to an SST file.
use vstd::prelude::*;

use crate::order::{CategoryView, KeyView, lemma_view_order, view_lt};
use crate::runs::{
    lemma_has_tombstone_category,
    lemma_key_members_other_category,
    lemma_live_entries_tombstone,
    lemma_live_of_strictly_sorted,
    lemma_strictly_sorted_unique,
    first_of_runs,
    first_of_runs_after,
    key_only,
    last_of_key_runs,
    lemma_first_of_runs,
    lemma_key_group_members,
    lemma_last_of_key_runs,
    lemma_members_by_value,
    lemma_prune_runs_basic,
    lemma_prune_group,
    lemma_prune_runs_groups,
    lemma_prune_untouched,
    prune_runs,
    run_has_tombstone,
};
use crate::sortable::{
    DroppedSize,
    SortableEntry,
    all_well_formed,
    category_group,
    first_of,
    has_key,
    key_group,
    last_of,
    lemma_total_size_add,
    lemma_total_size_prepend,
    lemma_total_size_reverse,
    has_tombstone,
    live_entries,
    members,
    sort_view,
    sorted_by,
    strictly_sorted_by,
    total_size,
};
use crate::stable_sort::{lemma_stably_sorted, reversed, same_view, stable_sort, stably_sorted};

verus! {

/// How the entries of a key family are kept.
#[derive(Clone, Copy, Debug, PartialEq, Eq)]
pub enum FamilyKind {
    /// One value per key: the latest write wins.
    SingleValue,
    /// Several values per key; a deletion removes all the values written before it.
    MultiValue,
}

/// The view of the entry just before index `i` of `s`, if any.
pub open spec fn view_before<E: SortableEntry>(s: Seq<E>, i: int, by_value: bool) -> Option<(KeyView, CategoryView)> {
    if i > 0 {
        Some(sort_view(s[i - 1], by_value))
    } else {
        None
    }
}

/// The totals of the suffix of `s` from `i` on are at most those of `s`.
proof fn lemma_suffix_total<E: SortableEntry>(s: Seq<E>, i: int)
    requires
        0 <= i <= s.len(),
    ensures
        total_size(s.skip(i), false) <= total_size(s, false),
        total_size(s.skip(i), true) <= total_size(s, true),
        i < s.len() ==> total_size(s.skip(i), false) == total_size(s.skip(i + 1), false)
            + s[i].size_view().0,
        i < s.len() ==> total_size(s.skip(i), true) == total_size(s.skip(i + 1), true)
            + s[i].size_view().1,
        i < s.len() ==> s.skip(i) == seq![s[i]] + s.skip(i + 1),
{
    assert(s =~= s.take(i) + s.skip(i));
    lemma_total_size_add(s.take(i), s.skip(i), false);
    lemma_total_size_add(s.take(i), s.skip(i), true);
    if i < s.len() {
        assert(s.skip(i) =~= seq![s[i]] + s.skip(i + 1));
        lemma_total_size_prepend(s[i], s.skip(i + 1), false);
        lemma_total_size_prepend(s[i], s.skip(i + 1), true);
    }
}

/// Keeping the last entry of each run of one key drops, from a suffix of `s`,
/// no more than from all of `s`, and never more than `s` holds.
proof fn lemma_last_of_key_runs_removed<E: SortableEntry>(s: Seq<E>, j: int, values: bool)
    requires
        0 <= j <= s.len(),
    ensures
        total_size(last_of_key_runs(s), values) <= total_size(s, values),
        total_size(s.skip(j), values) - total_size(last_of_key_runs(s.skip(j)), values)
            <= total_size(s, values) - total_size(last_of_key_runs(s), values),
    decreases s.len(),
{
    if s.len() == 0 {
        assert(s.skip(j) =~= s);
    } else {
        let t = s.drop_first();
        assert(s =~= seq![s[0]] + t);
        lemma_total_size_prepend(s[0], t, values);
        lemma_total_size_prepend(s[0], last_of_key_runs(t), values);
        if j > 0 {
            lemma_last_of_key_runs_removed(t, j - 1, values);
            assert(s.skip(j) =~= t.skip(j - 1));
        } else {
            lemma_last_of_key_runs_removed(t, 0, values);
            assert(s.skip(0) =~= s);
        }
    }
}

/// Keeping the first entry of each run of one view never keeps more than `t` holds.
proof fn lemma_first_of_runs_total<E: SortableEntry>(
    prev: Option<(KeyView, CategoryView)>,
    t: Seq<E>,
    by_value: bool,
    values: bool,
)
    ensures
        total_size(first_of_runs_after(prev, t, by_value), values) <= total_size(t, values),
    decreases t.len(),
{
    if t.len() > 0 {
        let u = t.drop_first();
        assert(t =~= seq![t[0]] + u);
        lemma_first_of_runs_total(Some(sort_view(t[0], by_value)), u, by_value, values);
        lemma_total_size_prepend(t[0], u, values);
        lemma_total_size_prepend(
            t[0],
            first_of_runs_after(Some(sort_view(t[0], by_value)), u, by_value),
            values,
        );
    }
}

/// Keeping the first entry of each run of one view drops, from the suffix of
/// `s` from `j` on, no more than from all of `s`.
proof fn lemma_first_of_runs_removed<E: SortableEntry>(s: Seq<E>, j: int, by_value: bool, values: bool)
    requires
        0 <= j <= s.len(),
    ensures
        total_size(s.skip(j), values) - total_size(
            first_of_runs_after(view_before(s, j, by_value), s.skip(j), by_value),
            values,
        ) <= total_size(s, values) - total_size(first_of_runs(s, by_value), values),
    decreases j,
{
    if j == 0 {
        assert(s.skip(0) =~= s);
    } else {
        lemma_first_of_runs_removed(s, j - 1, by_value, values);
        let t = s.skip(j - 1);
        assert(t =~= seq![s[j - 1]] + s.skip(j));
        assert(t.drop_first() =~= s.skip(j));
        let rest = first_of_runs_after(view_before(s, j, by_value), s.skip(j), by_value);
        lemma_total_size_prepend(s[j - 1], s.skip(j), values);
        lemma_total_size_prepend(s[j - 1], rest, values);
    }
}

/// What `prune_runs` keeps of `s` weighs no more than `s[..i]` together with
/// what it keeps of `s[i..]`.
proof fn lemma_prune_runs_total<E: SortableEntry>(s: Seq<E>, i: int, values: bool)
    requires
        0 <= i <= s.len(),
    ensures
        total_size(prune_runs(s), values) <= total_size(s.take(i), values) + total_size(
            prune_runs(s.skip(i)),
            values,
        ),
    decreases s.len(),
{
    if i == 0 {
        assert(s.take(0) =~= Seq::<E>::empty());
        assert(s.skip(0) =~= s);
    } else {
        let t = s.drop_first();
        lemma_prune_runs_total(t, i - 1, values);
        assert(s.take(i) =~= seq![s[0]] + t.take(i - 1));
        assert(s.skip(i) =~= t.skip(i - 1));
        lemma_total_size_prepend(s[0], t.take(i - 1), values);
        lemma_total_size_prepend(s[0], prune_runs(t), values);
    }
}

/// Sorts `entries` stably by key, or by key and value category.
fn sort_entries<E: SortableEntry>(entries: &mut Vec<E>, by_value: bool)
    requires
        all_well_formed(old(entries)@),
    ensures
        sorted_by(final(entries)@, by_value),
        forall|w: (KeyView, CategoryView)| #[trigger]
            members(final(entries)@, by_value, w) == members(old(entries)@, by_value, w),
        total_size(final(entries)@, false) == total_size(old(entries)@, false),
        total_size(final(entries)@, true) == total_size(old(entries)@, true),
        all_well_formed(final(entries)@),
        final(entries)@ == stably_sorted(old(entries)@, by_value),
{
    let mut taken: Vec<E> = Vec::new();
    std::mem::swap(entries, &mut taken);
    let sorted = stable_sort(taken, by_value);
    *entries = sorted;
}

/// Keeps only the last entry of each run of entries with equal keys (latest
/// write wins) and adds the sizes of the dropped entries to `dropped`.
fn dedupe_keys_keep_last<E: SortableEntry>(entries: &mut Vec<E>, dropped: &mut DroppedSize)
    requires
        all_well_formed(old(entries)@),
        old(dropped).key_size + total_size(old(entries)@, false) <= usize::MAX + total_size(
            last_of_key_runs(old(entries)@),
            false,
        ),
        old(dropped).value_size + total_size(old(entries)@, true) <= usize::MAX + total_size(
            last_of_key_runs(old(entries)@),
            true,
        ),
    ensures
        final(entries)@ == last_of_key_runs(old(entries)@),
        all_well_formed(final(entries)@),
        final(dropped).key_size + total_size(final(entries)@, false) == old(dropped).key_size
            + total_size(old(entries)@, false),
        final(dropped).value_size + total_size(final(entries)@, true) == old(dropped).value_size
            + total_size(old(entries)@, true),
{
    let ghost s = entries@;
    let ghost dk = dropped.key_size;
    let ghost dv = dropped.value_size;
    let mut rev: Vec<E> = Vec::new();
    proof {
        assert(s.skip(s.len() as int) =~= Seq::<E>::empty());
        assert(rev@.reverse() =~= Seq::<E>::empty());
        assert(s.take(s.len() as int) =~= s);
    }
    while entries.len() > 0
        invariant
            entries@.len() <= s.len(),
            entries@ == s.take(entries@.len() as int),
            all_well_formed(s),
            all_well_formed(rev@),
            rev@.reverse() == last_of_key_runs(s.skip(entries@.len() as int)),
            entries@.len() < s.len() ==> rev@.len() > 0 && rev@.last().key_view()
                == s[entries@.len() as int].key_view(),
            dropped.key_size + total_size(rev@, false) == dk + total_size(
                s.skip(entries@.len() as int),
                false,
            ),
            dropped.value_size + total_size(rev@, true) == dv + total_size(
                s.skip(entries@.len() as int),
                true,
            ),
            dk + total_size(s, false) <= usize::MAX + total_size(last_of_key_runs(s), false),
            dv + total_size(s, true) <= usize::MAX + total_size(last_of_key_runs(s), true),
        decreases entries@.len(),
    {
        let ghost j = entries@.len() - 1;
        let ghost prev_rev = rev@;
        let x = entries.pop().unwrap();
        proof {
            assert(s.take(j + 1)[j] == s[j]);
            assert(entries@ =~= s.take(j));
            lemma_suffix_total(s, j);
            assert(s.skip(j)[0] == s[j]);
            assert(s.skip(j).drop_first() =~= s.skip(j + 1));
            if j + 1 < s.len() {
                assert(s.skip(j)[1] == s[j + 1]);
            }
            lemma_last_of_key_runs_removed(s, j, false);
            lemma_last_of_key_runs_removed(s, j, true);
            lemma_total_size_reverse(rev@, false);
            lemma_total_size_reverse(rev@, true);
        }
        let same = rev.len() > 0 && same_view(&rev[rev.len() - 1], &x, false);
        if same {
            proof {
                assert(last_of_key_runs(s.skip(j)) == last_of_key_runs(s.skip(j + 1)));
            }
            let (ks, vs) = x.entry_size();
            dropped.key_size = dropped.key_size + ks;
            dropped.value_size = dropped.value_size + vs;
        } else {
            rev.push(x);
            proof {
                assert(rev@.reverse() =~= seq![x] + prev_rev.reverse());
                assert(rev@.drop_last() =~= prev_rev);
            }
        }
    }
    proof {
        lemma_total_size_reverse(rev@, false);
        lemma_total_size_reverse(rev@, true);
        assert(s.skip(0) =~= s);
        assert forall|m: int| 0 <= m < rev@.len() implies (#[trigger] rev@.reverse()[m]).well_formed() by {
            assert(rev@.reverse()[m] == rev@[rev@.len() - 1 - m]);
        }
    }
    *entries = reversed(rev);
}

/// Keeps only the first entry of each run of entries with equal key and value
/// category, and adds the sizes of the dropped entries to `dropped`.
fn dedupe_key_value_pairs<E: SortableEntry>(entries: &mut Vec<E>, dropped: &mut DroppedSize)
    requires
        all_well_formed(old(entries)@),
        old(dropped).key_size + total_size(old(entries)@, false) <= usize::MAX + total_size(
            first_of_runs(old(entries)@, true),
            false,
        ),
        old(dropped).value_size + total_size(old(entries)@, true) <= usize::MAX + total_size(
            first_of_runs(old(entries)@, true),
            true,
        ),
    ensures
        final(entries)@ == first_of_runs(old(entries)@, true),
        final(dropped).key_size + total_size(final(entries)@, false) == old(dropped).key_size
            + total_size(old(entries)@, false),
        final(dropped).value_size + total_size(final(entries)@, true) == old(dropped).value_size
            + total_size(old(entries)@, true),
{
    let ghost s = entries@;
    let ghost dk = dropped.key_size;
    let ghost dv = dropped.value_size;
    let mut rev: Vec<E> = Vec::new();
    proof {
        assert(s.skip(s.len() as int) =~= Seq::<E>::empty());
        assert(rev@.reverse() =~= Seq::<E>::empty());
        assert(s.take(s.len() as int) =~= s);
    }
    while entries.len() > 0
        invariant
            entries@.len() <= s.len(),
            entries@ == s.take(entries@.len() as int),
            all_well_formed(s),
            rev@.reverse() == first_of_runs_after(
                view_before(s, entries@.len() as int, true),
                s.skip(entries@.len() as int),
                true,
            ),
            dropped.key_size + total_size(rev@, false) == dk + total_size(
                s.skip(entries@.len() as int),
                false,
            ),
            dropped.value_size + total_size(rev@, true) == dv + total_size(
                s.skip(entries@.len() as int),
                true,
            ),
            dk + total_size(s, false) <= usize::MAX + total_size(first_of_runs(s, true), false),
            dv + total_size(s, true) <= usize::MAX + total_size(first_of_runs(s, true), true),
        decreases entries@.len(),
    {
        let ghost j = entries@.len() - 1;
        let ghost prev_rev = rev@;
        let x = entries.pop().unwrap();
        proof {
            assert(s.take(j + 1)[j] == s[j]);
            assert(entries@ =~= s.take(j));
            lemma_suffix_total(s, j);
            assert(s.skip(j)[0] == s[j]);
            assert(s.skip(j).drop_first() =~= s.skip(j + 1));
            if j > 0 {
                assert(entries@[j - 1] == s[j - 1]);
            }
            lemma_first_of_runs_removed(s, j, true, false);
            lemma_first_of_runs_removed(s, j, true, true);
            lemma_total_size_reverse(rev@, false);
            lemma_total_size_reverse(rev@, true);
        }
        let dup = entries.len() > 0 && same_view(&entries[entries.len() - 1], &x, true);
        if dup {
            let (ks, vs) = x.entry_size();
            dropped.key_size = dropped.key_size + ks;
            dropped.value_size = dropped.value_size + vs;
        } else {
            rev.push(x);
            proof {
                assert(rev@.reverse() =~= seq![x] + prev_rev.reverse());
                assert(rev@.drop_last() =~= prev_rev);
            }
        }
    }
    proof {
        lemma_total_size_reverse(rev@, false);
        lemma_total_size_reverse(rev@, true);
        assert(s.skip(0) =~= s);
    }
    *entries = reversed(rev);
}

/// Cutting `mid` out of `pre + mid + post` takes away the totals of `mid`.
proof fn lemma_cut_totals<E: SortableEntry>(pre: Seq<E>, mid: Seq<E>, post: Seq<E>)
    ensures
        total_size(pre + mid + post, false) == total_size(pre + post, false) + total_size(mid, false),
        total_size(pre + mid + post, true) == total_size(pre + post, true) + total_size(mid, true),
{
    lemma_total_size_add(pre + mid, post, false);
    lemma_total_size_add(pre + mid, post, true);
    lemma_total_size_add(pre, mid, false);
    lemma_total_size_add(pre, mid, true);
    lemma_total_size_add(pre, post, false);
    lemma_total_size_add(pre, post, true);
}

/// The position of the last tombstone in `entries[..end]`, if any.
fn last_tombstone_before<E: SortableEntry>(entries: &Vec<E>, end: usize) -> (r: Option<usize>)
    requires
        end <= entries.len(),
        forall|m: int| 0 <= m < end ==> (#[trigger] entries@[m]).well_formed(),
    ensures
        match r {
            Some(p) => p < end && entries@[p as int].category_view() is Deleted && forall|m: int|
                p < m < end ==> !(#[trigger] entries@[m].category_view() is Deleted),
            None => forall|m: int| 0 <= m < end ==> !(#[trigger] entries@[m].category_view() is Deleted),
        },
{
    let mut j = end;
    while j > 0
        invariant
            j <= end <= entries.len(),
            forall|m: int| 0 <= m < end ==> (#[trigger] entries@[m]).well_formed(),
            forall|m: int| j <= m < end ==> !(#[trigger] entries@[m].category_view() is Deleted),
        decreases j,
    {
        if entries[j - 1].is_deleted() {
            return Some(j - 1);
        }
        j = j - 1;
    }
    None
}

/// The first position of the run of entries that share the key of `entries[pos]`
/// and end at `pos`.
fn key_run_start<E: SortableEntry>(entries: &Vec<E>, pos: usize) -> (start: usize)
    requires
        pos < entries.len(),
        forall|m: int| 0 <= m <= pos ==> (#[trigger] entries@[m]).well_formed(),
    ensures
        start <= pos,
        forall|m: int| start <= m <= pos ==> (#[trigger] entries@[m]).key_view() == entries@[pos as int].key_view(),
        start > 0 ==> entries@[start - 1].key_view() != entries@[pos as int].key_view(),
{
    let mut start = pos;
    while start > 0 && same_view(&entries[start - 1], &entries[pos], false)
        invariant
            start <= pos < entries.len(),
            forall|m: int| 0 <= m <= pos ==> (#[trigger] entries@[m]).well_formed(),
            forall|m: int| start <= m <= pos ==> (#[trigger] entries@[m]).key_view() == entries@[pos as int].key_view(),
        decreases start,
    {
        start = start - 1;
    }
    start
}

/// Removes `entries[from..to)` and adds their sizes to `dropped`.
fn drop_range<E: SortableEntry>(entries: &mut Vec<E>, dropped: &mut DroppedSize, from: usize, to: usize)
    requires
        from <= to <= old(entries).len(),
        forall|m: int| from <= m < to ==> (#[trigger] old(entries)@[m]).well_formed(),
        old(dropped).key_size + total_size(old(entries)@.subrange(from as int, to as int), false) <= usize::MAX,
        old(dropped).value_size + total_size(old(entries)@.subrange(from as int, to as int), true) <= usize::MAX,
    ensures
        final(entries)@ == old(entries)@.take(from as int) + old(entries)@.skip(to as int),
        final(dropped).key_size == old(dropped).key_size + total_size(
            old(entries)@.subrange(from as int, to as int),
            false,
        ),
        final(dropped).value_size == old(dropped).value_size + total_size(
            old(entries)@.subrange(from as int, to as int),
            true,
        ),
{
    let ghost s = entries@;
    let ghost whole = s.subrange(from as int, to as int);
    let ghost base_k = dropped.key_size;
    let ghost base_v = dropped.value_size;
    let mut k = from;
    while k < to
        invariant
            from <= k <= to <= s.len(),
            entries@ == s,
            forall|m: int| from <= m < to ==> (#[trigger] s[m]).well_formed(),
            whole == s.subrange(from as int, to as int),
            dropped.key_size == base_k + total_size(s.subrange(from as int, k as int), false),
            dropped.value_size == base_v + total_size(s.subrange(from as int, k as int), true),
            base_k + total_size(whole, false) <= usize::MAX,
            base_v + total_size(whole, true) <= usize::MAX,
        decreases to - k,
    {
        proof {
            assert(s.subrange(from as int, k + 1).drop_last() =~= s.subrange(from as int, k as int));
            assert(whole =~= s.subrange(from as int, k + 1) + s.subrange(k + 1, to as int));
            lemma_total_size_add(s.subrange(from as int, k + 1), s.subrange(k + 1, to as int), false);
            lemma_total_size_add(s.subrange(from as int, k + 1), s.subrange(k + 1, to as int), true);
        }
        let (ks, vs) = entries[k].entry_size();
        dropped.key_size = dropped.key_size + ks;
        dropped.value_size = dropped.value_size + vs;
        k = k + 1;
    }
    let mut tail = entries.split_off(to);
    entries.truncate(from);
    entries.append(&mut tail);
    proof {
        assert(s.subrange(from as int, k as int) =~= whole);
        assert(entries@ =~= s.take(from as int) + s.skip(to as int));
    }
}

/// For multi-value families: within each key group (sorted by key, preserving
/// insertion order via stable sort), if a deletion tombstone is present, discards
/// all entries before the last tombstone. The tombstone itself plus any entries
/// after it survive. Adds the sizes of the discarded entries to `dropped`.
fn prune_deleted_groups<E: SortableEntry>(entries: &mut Vec<E>, dropped: &mut DroppedSize)
    requires
        all_well_formed(old(entries)@),
        old(dropped).key_size + total_size(old(entries)@, false) <= usize::MAX + total_size(
            prune_runs(old(entries)@),
            false,
        ),
        old(dropped).value_size + total_size(old(entries)@, true) <= usize::MAX + total_size(
            prune_runs(old(entries)@),
            true,
        ),
    ensures
        final(entries)@ == prune_runs(old(entries)@),
        final(dropped).key_size + total_size(final(entries)@, false) == old(dropped).key_size
            + total_size(old(entries)@, false),
        final(dropped).value_size + total_size(final(entries)@, true) == old(dropped).value_size
            + total_size(old(entries)@, true),
{
    let ghost s = entries@;
    let ghost dk = dropped.key_size;
    let ghost dv = dropped.value_size;
    let mut i = entries.len();
    proof {
        assert(s.skip(s.len() as int) =~= Seq::<E>::empty());
        assert(s.take(s.len() as int) =~= s);
        assert(entries@ =~= s.take(i as int) + prune_runs(s.skip(i as int)));
    }
    while i > 0
        invariant
            i <= s.len(),
            s == old(entries)@,
            dk == old(dropped).key_size,
            dv == old(dropped).value_size,
            all_well_formed(s),
            entries@ == s.take(i as int) + prune_runs(s.skip(i as int)),
            0 < i < s.len() ==> s[i - 1].key_view() != s[i as int].key_view(),
            dropped.key_size + total_size(entries@, false) == dk + total_size(s, false),
            dropped.value_size + total_size(entries@, true) == dv + total_size(s, true),
            dk + total_size(s, false) <= usize::MAX + total_size(prune_runs(s), false),
            dv + total_size(s, true) <= usize::MAX + total_size(prune_runs(s), true),
        decreases i,
    {
        proof {
            lemma_prune_runs_basic(s.skip(i as int));
            assert forall|m: int| 0 <= m < i implies #[trigger] entries@[m] == s[m] by {
                assert(entries@[m] == s.take(i as int)[m]);
            }
            assert forall|m: int| 0 <= m < i implies (#[trigger] entries@[m]).well_formed() by {
                assert(entries@[m] == s[m]);
            }
        }
        // Find the last tombstone in entries[..i].
        let found = last_tombstone_before(entries, i);
        let del_pos = match found {
            Some(p) => p,
            None => {
                proof {
                    assert forall|m: int| 0 <= m < i implies !(#[trigger] s[m].category_view() is Deleted) by {
                        assert(entries@[m] == s[m]);
                    }
                    lemma_prune_untouched(s, 0, i as int);
                    assert(s.skip(0) =~= s);
                    assert(s.take(i as int) =~= s.subrange(0, i as int));
                    assert(entries@ =~= prune_runs(s));
                }
                return;
            },
        };
        // Scan backwards to find the start of this key group.
        let group_start = key_run_start(entries, del_pos);
        let ghost before = entries@;
        proof {
            assert forall|m: int| group_start <= m <= del_pos implies (#[trigger] s[m]).key_view()
                == s[del_pos as int].key_view() by {
                assert(entries@[m] == s[m]);
            }
            assert forall|m: int| del_pos < m < i implies !(#[trigger] s[m].category_view() is Deleted) by {
                assert(entries@[m] == s[m]);
            }
            assert(entries@[del_pos as int] == s[del_pos as int]);
            if group_start > 0 {
                assert(entries@[group_start - 1] == s[group_start - 1]);
            }
            assert(before =~= s.take(group_start as int) + s.subrange(group_start as int, del_pos as int)
                + (s.subrange(del_pos as int, i as int) + prune_runs(s.skip(i as int))));
            assert(before.subrange(group_start as int, del_pos as int) =~= s.subrange(group_start as int, del_pos as int));
            lemma_cut_totals(s.take(group_start as int), s.subrange(group_start as int, del_pos as int),
                s.subrange(del_pos as int, i as int) + prune_runs(s.skip(i as int)));
            lemma_prune_group(s, group_start as int, del_pos as int, i as int);
            lemma_prune_runs_total(s, group_start as int, false);
            lemma_prune_runs_total(s, group_start as int, true);
            lemma_total_size_add(s.take(group_start as int), prune_runs(s.skip(group_start as int)), false);
            lemma_total_size_add(s.take(group_start as int), prune_runs(s.skip(group_start as int)), true);
            assert(s.take(group_start as int) + prune_runs(s.skip(group_start as int)) =~= s.take(
                group_start as int,
            ) + (s.subrange(del_pos as int, i as int) + prune_runs(s.skip(i as int))));
        }
        // Drop the entries the tombstone cancels, accounting for their sizes.
        drop_range(entries, dropped, group_start, del_pos);
        proof {
            lemma_prune_group(s, group_start as int, del_pos as int, i as int);
            assert(before.take(group_start as int) =~= s.take(group_start as int));
            assert(before.skip(del_pos as int) =~= s.subrange(del_pos as int, i as int) + prune_runs(s.skip(i as int)));
            assert(entries@ =~= s.take(group_start as int) + prune_runs(s.skip(group_start as int)));
        }
        i = group_start;
    }
    proof {
        assert(s.skip(0) =~= s);
        assert(s.take(0) =~= Seq::<E>::empty());
        assert(entries@ =~= prune_runs(s));
    }
}

/// `output` is what a single-value family keeps of `input`: of each key, the
/// latest write, in strictly increasing key order.
pub open spec fn keeps_latest_per_key<E: SortableEntry>(input: Seq<E>, output: Seq<E>) -> bool {
    &&& strictly_sorted_by(output, false)
    &&& forall|k: KeyView| #[trigger] key_group(output, k) == last_of(key_group(input, k))
}

/// `output` is what a multi-value family keeps of `input`: of each key, the
/// entries that no later tombstone of that key cancels, one per distinct value
/// (the first written), in strictly increasing (key, value) order.
pub open spec fn keeps_live_values<E: SortableEntry>(input: Seq<E>, output: Seq<E>) -> bool {
    &&& strictly_sorted_by(output, true)
    &&& forall|k: KeyView, c: CategoryView| #[trigger]
        members(output, true, (k, c)) == first_of(
            category_group(live_entries(key_group(input, k)), c),
        )
}

/// `output` is what `sort_and_dedup` keeps of `input` for a family of kind `kind`.
pub open spec fn dedup_outcome<E: SortableEntry>(input: Seq<E>, kind: FamilyKind, output: Seq<E>) -> bool {
    match kind {
        FamilyKind::SingleValue => keeps_latest_per_key(input, output),
        FamilyKind::MultiValue => keeps_live_values(input, output),
    }
}

/// A tombstone is the first entry of its key in `s`.
pub open spec fn tombstones_lead<E: SortableEntry>(s: Seq<E>) -> bool {
    forall|i: int, j: int|
        0 <= i < j < s.len() && (#[trigger] s[i]).key_view() == (#[trigger] s[j]).key_view() ==> !(
        s[j].category_view() is Deleted)
}

/// An outcome is sorted by key, and in a multi-value family each tombstone
/// leads its key.
proof fn lemma_outcome_sorted_by_key<E: SortableEntry>(
    input: Seq<E>,
    kind: FamilyKind,
    output: Seq<E>,
)
    requires
        dedup_outcome(input, kind, output),
    ensures
        sorted_by(output, false),
        kind == FamilyKind::MultiValue ==> tombstones_lead(output),
{
    let by_value = kind == FamilyKind::MultiValue;
    assert forall|i: int, j: int| 0 <= i < j < output.len() implies !view_lt(
        #[trigger] sort_view(output[j], false),
        #[trigger] sort_view(output[i], false),
    ) by {
        lemma_view_order(sort_view(output[i], by_value), sort_view(output[j], by_value), sort_view(output[i], by_value));
        lemma_view_order(sort_view(output[i], false), sort_view(output[j], false), sort_view(output[i], false));
    }
    if by_value {
        assert forall|i: int, j: int|
            0 <= i < j < output.len() && (#[trigger] output[i]).key_view() == (#[trigger] output[j]).key_view()
            implies !(output[j].category_view() is Deleted) by {
            assert(view_lt(sort_view(output[i], true), sort_view(output[j], true)));
            lemma_view_order(sort_view(output[i], true), sort_view(output[i], true), sort_view(output[i], true));
        }
    }
}

/// `output` holds, of each view (key and value category) of `s`, the entry of
/// that view that comes first in `s`, in strictly increasing order of views.
pub open spec fn keeps_first_per_view<E: SortableEntry>(s: Seq<E>, output: Seq<E>) -> bool {
    &&& strictly_sorted_by(output, true)
    &&& forall|v: (KeyView, CategoryView)| #[trigger]
        members(output, true, v) == first_of(members(s, true, v))
}

/// What `sort_and_dedup` leaves of `input` for a family of kind `kind`: the
/// entries stably sorted by key (unless `already_sorted`), then for a single-value
/// family the last of each run of one key, and for a multi-value family each run
/// pruned before its last tombstone, stably sorted by key and value, and the
/// first of each run of one key and value.
pub open spec fn dedup_result<E: SortableEntry>(input: Seq<E>, kind: FamilyKind, already_sorted: bool) -> Seq<E> {
    let by_key = if already_sorted {
        input
    } else {
        stably_sorted(input, false)
    };
    match kind {
        FamilyKind::SingleValue => last_of_key_runs(by_key),
        FamilyKind::MultiValue => first_of_runs(stably_sorted(prune_runs(by_key), true), true),
    }
}

/// The sizes of the entries of `input` that `output` does not keep fit in a `usize`.
pub open spec fn removed_sizes_fit<E: SortableEntry>(input: Seq<E>, output: Seq<E>) -> bool {
    &&& total_size(input, false) <= usize::MAX + total_size(output, false)
    &&& total_size(input, true) <= usize::MAX + total_size(output, true)
}

/// On input sorted by key, or when it sorts first, `dedup_result` is the outcome
/// that the family kind asks for, sorted by key, with tombstones leading their key.
pub proof fn lemma_dedup_result_outcome<E: SortableEntry>(input: Seq<E>, kind: FamilyKind, already_sorted: bool)
    requires
        !already_sorted || sorted_by(input, false),
    ensures
        dedup_outcome(input, kind, dedup_result(input, kind, already_sorted)),
        sorted_by(dedup_result(input, kind, already_sorted), false),
        kind == FamilyKind::MultiValue ==> tombstones_lead(dedup_result(input, kind, already_sorted)),
{
    let by_key = if already_sorted {
        input
    } else {
        stably_sorted(input, false)
    };
    lemma_stably_sorted(input, false);
    let out = dedup_result(input, kind, already_sorted);
    match kind {
        FamilyKind::SingleValue => {
            lemma_last_of_key_runs(by_key);
            assert forall|k: KeyView| #[trigger] key_group(out, k) == last_of(key_group(input, k)) by {
                lemma_key_group_members(out, k);
                lemma_key_group_members(by_key, k);
                lemma_key_group_members(input, k);
            }
        },
        FamilyKind::MultiValue => {
            let pruned = prune_runs(by_key);
            let by_value = stably_sorted(pruned, true);
            lemma_stably_sorted(pruned, true);
            lemma_prune_runs_groups(by_key);
            lemma_first_of_runs(None, by_value, true);
            assert forall|k: KeyView, c: CategoryView| #[trigger]
                members(out, true, (k, c)) == first_of(
                    category_group(live_entries(key_group(input, k)), c),
                ) by {
                assert(members(by_value, true, (k, c)) == members(pruned, true, (k, c)));
                lemma_members_by_value(pruned, k, c);
                lemma_key_group_members(by_key, k);
                lemma_key_group_members(input, k);
            }
        },
    }
    lemma_outcome_sorted_by_key(input, kind, out);
}

/// In a sequence in which tombstones lead their key, the entries of one key
/// hold a tombstone only as their first.
proof fn lemma_key_group_tombstone_first<E: SortableEntry>(s: Seq<E>, k: KeyView)
    requires
        tombstones_lead(s),
    ensures
        forall|i: int|
            0 < i < key_group(s, k).len() ==> !(#[trigger] key_group(s, k)[i].category_view() is Deleted),
    decreases s.len(),
{
    reveal(Seq::filter);
    if s.len() > 0 {
        let t = s.drop_last();
        assert(tombstones_lead(t)) by {
            assert forall|i: int, j: int|
                0 <= i < j < t.len() && (#[trigger] t[i]).key_view() == (#[trigger] t[j]).key_view()
                implies !(t[j].category_view() is Deleted) by {
                assert(t[i] == s[i] && t[j] == s[j]);
            }
        }
        lemma_key_group_tombstone_first(t, k);
        let g = key_group(s, k);
        let gt = key_group(t, k);
        if s.last().key_view() == k && gt.len() > 0 {
            t.lemma_filter_pred(has_key(k), 0);
            assert(gt.contains(gt[0]));
            t.lemma_filter_contains_rev(has_key(k), gt[0]);
            let m = choose|m: int| 0 <= m < t.len() && t[m] == gt[0];
            assert(s[m] == t[m]);
            assert(s[s.len() - 1] == s.last());
        }
        assert forall|i: int| 0 < i < g.len() implies !(#[trigger] g[i].category_view() is Deleted) by {
            if i < gt.len() {
                assert(g[i] == gt[i]);
            }
        }
    }
}

/// In a multi-value family, a key keeps a tombstone exactly when its input held
/// one (the tombstone itself is kept), and it holds at most one, as its first
/// entry.
pub proof fn law_multi_value_tombstones<E: SortableEntry>(input: Seq<E>, output: Seq<E>)
    requires
        dedup_outcome(input, FamilyKind::MultiValue, output),
    ensures
        forall|k: KeyView| #[trigger]
            has_tombstone(key_group(output, k)) == has_tombstone(key_group(input, k)),
        forall|k: KeyView, i: int|
            0 < i < key_group(output, k).len() ==> !(#[trigger] key_group(output, k)[i].category_view() is Deleted),
{
    lemma_outcome_sorted_by_key(input, FamilyKind::MultiValue, output);
    assert forall|k: KeyView| #[trigger]
        has_tombstone(key_group(output, k)) == has_tombstone(key_group(input, k)) by {
        let live = live_entries(key_group(input, k));
        assert(members(output, true, (k, CategoryView::Deleted)) == first_of(
            category_group(live, CategoryView::Deleted),
        ));
        lemma_members_by_value(output, k, CategoryView::Deleted);
        lemma_has_tombstone_category(key_group(output, k));
        lemma_has_tombstone_category(live);
        lemma_live_entries_tombstone(key_group(input, k));
    }
    assert forall|k: KeyView, i: int| 0 < i < key_group(output, k).len() implies !(
    #[trigger] key_group(output, k)[i].category_view() is Deleted) by {
        lemma_key_group_tombstone_first(output, k);
    }
}

/// Sorts and deduplicates entries according to the family kind, suitable for SST storage.
///
/// - **SingleValue**: keeps only the last entry per key (latest write wins).
/// - **MultiValue**: deletes discard all prior entries for that key, the tombstone itself is kept.
///   Duplicate (key, value) pairs are removed. Final order is (key, value).
///
/// If `ALREADY_SORTED_BY_KEY` is true, skips the initial key sort (e.g. entries from a merge are
/// already in key order). Returns the cumulative sizes of the entries removed, which must fit
/// in a `usize`.
///
/// Entries passed as sorted that are not sorted by key are still handled without
/// a sort: of each run of adjacent entries with one key, a single-value family
/// keeps the last, and a multi-value family prunes each run before its last
/// tombstone and then keeps the first entry of each (key, value).
pub fn sort_and_dedup<const ALREADY_SORTED_BY_KEY: bool, E: SortableEntry>(
    entries: &mut Vec<E>,
    kind: FamilyKind,
) -> (dropped: DroppedSize)
    requires
        all_well_formed(old(entries)@),
        removed_sizes_fit(old(entries)@, dedup_result(old(entries)@, kind, ALREADY_SORTED_BY_KEY)),
    ensures
        final(entries)@ == dedup_result(old(entries)@, kind, ALREADY_SORTED_BY_KEY),
        all_well_formed(final(entries)@),
        dropped.key_size + total_size(final(entries)@, false) == total_size(old(entries)@, false),
        dropped.value_size + total_size(final(entries)@, true) == total_size(old(entries)@, true),
        !ALREADY_SORTED_BY_KEY || sorted_by(old(entries)@, false) ==> {
            &&& dedup_outcome(old(entries)@, kind, final(entries)@)
            &&& sorted_by(final(entries)@, false)
            &&& kind == FamilyKind::MultiValue ==> tombstones_lead(final(entries)@)
        },
        ALREADY_SORTED_BY_KEY && kind == FamilyKind::SingleValue ==> final(entries)@
            == last_of_key_runs(old(entries)@),
        ALREADY_SORTED_BY_KEY && kind == FamilyKind::MultiValue ==> keeps_first_per_view(
            prune_runs(old(entries)@),
            final(entries)@,
        ),
{
    let ghost input = entries@;
    let ghost result = dedup_result(input, kind, ALREADY_SORTED_BY_KEY);
    let mut dropped = DroppedSize { key_size: 0, value_size: 0 };
    proof {
        lemma_stably_sorted(input, false);
    }
    match kind {
        FamilyKind::SingleValue => {
            if !ALREADY_SORTED_BY_KEY {
                sort_entries(entries, false);
            }
            dedupe_keys_keep_last(entries, &mut dropped);
        },
        FamilyKind::MultiValue => {
            if !ALREADY_SORTED_BY_KEY {
                sort_entries(entries, false);
            }
            let ghost by_key = entries@;
            proof {
                lemma_prune_runs_basic(by_key);
                lemma_stably_sorted(prune_runs(by_key), true);
                lemma_first_of_runs_total(None, stably_sorted(prune_runs(by_key), true), true, false);
                lemma_first_of_runs_total(None, stably_sorted(prune_runs(by_key), true), true, true);
            }
            prune_deleted_groups(entries, &mut dropped);
            let ghost pruned = entries@;
            sort_entries(entries, true);
            let ghost by_value = entries@;
            dedupe_key_value_pairs(entries, &mut dropped);
            proof {
                lemma_first_of_runs(None, by_value, true);
                if ALREADY_SORTED_BY_KEY {
                    assert forall|v: (KeyView, CategoryView)| #[trigger]
                        members(entries@, true, v) == first_of(members(pruned, true, v)) by {
                        assert(members(by_value, true, v) == members(pruned, true, v));
                    }
                }
            }
        },
    }
    proof {
        if !ALREADY_SORTED_BY_KEY || sorted_by(input, false) {
            lemma_dedup_result_outcome(input, kind, ALREADY_SORTED_BY_KEY);
        }
    }
    dropped
}

/// On input sorted by key, skipping the key sort changes nothing: both ways give
/// the same entries (and so drop the same sizes).
pub proof fn law_presorted_skips_sort<E: SortableEntry>(input: Seq<E>, kind: FamilyKind)
    requires
        sorted_by(input, false),
    ensures
        dedup_result(input, kind, true) == dedup_result(input, kind, false),
{
    lemma_dedup_result_outcome(input, kind, true);
    lemma_dedup_result_outcome(input, kind, false);
    law_dedup_outcome_unique(
        input,
        kind,
        dedup_result(input, kind, true),
        dedup_result(input, kind, false),
    );
}

/// Calling `sort_and_dedup` again, with the same kind, on what a call left
/// (of input sorted by key, or sorted by that call) leaves the entries as they
/// are, whether or not the second call sorts, so that it removes nothing and
/// drops sizes of 0.
pub proof fn law_second_call_changes_nothing<E: SortableEntry>(
    input: Seq<E>,
    kind: FamilyKind,
    first_sorted: bool,
    second_sorted: bool,
)
    requires
        !first_sorted || sorted_by(input, false),
    ensures
        dedup_result(dedup_result(input, kind, first_sorted), kind, second_sorted) == dedup_result(
            input,
            kind,
            first_sorted,
        ),
        removed_sizes_fit(
            dedup_result(input, kind, first_sorted),
            dedup_result(dedup_result(input, kind, first_sorted), kind, second_sorted),
        ),
{
    let once = dedup_result(input, kind, first_sorted);
    lemma_dedup_result_outcome(input, kind, first_sorted);
    lemma_dedup_result_outcome(once, kind, second_sorted);
    law_dedup_outcome_idempotent(input, kind, once, dedup_result(once, kind, second_sorted));
}

/// The outcome of `sort_and_dedup` is determined by its input: two outputs that
/// both meet the contract for the same input and kind are equal.
pub proof fn law_dedup_outcome_unique<E: SortableEntry>(
    input: Seq<E>,
    kind: FamilyKind,
    first: Seq<E>,
    second: Seq<E>,
)
    requires
        dedup_outcome(input, kind, first),
        dedup_outcome(input, kind, second),
    ensures
        first == second,
{
    match kind {
        FamilyKind::SingleValue => {
            assert forall|v: (KeyView, CategoryView)| #[trigger]
                members(first, false, v) == members(second, false, v) by {
                if v.1 is Deleted {
                    assert(v == key_only(v.0));
                    lemma_key_group_members(first, v.0);
                    lemma_key_group_members(second, v.0);
                    assert(key_group(first, v.0) == key_group(second, v.0));
                } else {
                    lemma_key_members_other_category(first, v);
                    lemma_key_members_other_category(second, v);
                }
            }
            lemma_strictly_sorted_unique(first, second, false);
        },
        FamilyKind::MultiValue => {
            assert forall|v: (KeyView, CategoryView)| #[trigger]
                members(first, true, v) == members(second, true, v) by {
                assert(members(first, true, (v.0, v.1)) == members(second, true, (v.0, v.1)));
            }
            lemma_strictly_sorted_unique(first, second, true);
        },
    }
}

/// Sorting and deduplicating an outcome again changes nothing: the second
/// outcome equals the first (so nothing is dropped the second time), and the
/// first is sorted by key, so it may be passed as already sorted.
pub proof fn law_dedup_outcome_idempotent<E: SortableEntry>(
    input: Seq<E>,
    kind: FamilyKind,
    once: Seq<E>,
    twice: Seq<E>,
)
    requires
        dedup_outcome(input, kind, once),
        dedup_outcome(once, kind, twice),
    ensures
        twice == once,
        sorted_by(once, false),
{
    lemma_outcome_sorted_by_key(input, kind, once);
    match kind {
        FamilyKind::SingleValue => {
            assert forall|k: KeyView| #[trigger]
                key_group(twice, k) == last_of(key_group(input, k)) by {
                assert(key_group(twice, k) == last_of(key_group(once, k)));
                assert(key_group(once, k) == last_of(key_group(input, k)));
            }
            law_dedup_outcome_unique(input, kind, once, twice);
        },
        FamilyKind::MultiValue => {
            assert forall|k: KeyView, c: CategoryView| #[trigger]
                members(twice, true, (k, c)) == first_of(
                    category_group(live_entries(key_group(input, k)), c),
                ) by {
                lemma_live_of_strictly_sorted(once, k);
                lemma_members_by_value(once, k, c);
                let m = members(once, true, (k, c));
                assert(m == first_of(category_group(live_entries(key_group(input, k)), c)));
                assert(m.len() <= 1);
                assert(first_of(m) =~= m);
            }
            law_dedup_outcome_unique(input, kind, once, twice);
        },
    }
}

} // verus!
