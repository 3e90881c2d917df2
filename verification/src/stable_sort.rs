//! A stable merge sort of entries, by key or by key and value category.
use std::cmp::Ordering;
use vstd::prelude::*;

use crate::order::{EntryView, lemma_view_order, view_lt};
use crate::sortable::{
    SortableEntry,
    all_well_formed,
    has_view,
    members,
    sort_view,
    sorted_by,
    total_size,
};

verus! {

/// `view_lt(top, x)` never holds for the view `x` of an entry of `s`.
pub open spec fn all_at_most<E: SortableEntry>(s: Seq<E>, by_value: bool, top: EntryView) -> bool {
    forall|i: int| 0 <= i < s.len() ==> !view_lt(top, #[trigger] sort_view(s[i], by_value))
}

/// The stable merge of two sequences, built from the back: when the last
/// entries of both are equal, the one of `r` goes last, so that entries of `l`
/// stay before equal entries of `r`.
pub open spec fn merged<E: SortableEntry>(l: Seq<E>, r: Seq<E>, by_value: bool) -> Seq<E>
    decreases l.len() + r.len(),
{
    if l.len() == 0 {
        r
    } else if r.len() == 0 {
        l
    } else if view_lt(sort_view(r.last(), by_value), sort_view(l.last(), by_value)) {
        merged(l.drop_last(), r, by_value).push(l.last())
    } else {
        merged(l, r.drop_last(), by_value).push(r.last())
    }
}

proof fn lemma_merged_well_formed<E: SortableEntry>(l: Seq<E>, r: Seq<E>, by_value: bool)
    requires
        all_well_formed(l),
        all_well_formed(r),
    ensures
        all_well_formed(merged(l, r, by_value)),
        merged(l, r, by_value).len() == l.len() + r.len(),
    decreases l.len() + r.len(),
{
    if l.len() > 0 && r.len() > 0 {
        if view_lt(sort_view(r.last(), by_value), sort_view(l.last(), by_value)) {
            lemma_merged_well_formed(l.drop_last(), r, by_value);
        } else {
            lemma_merged_well_formed(l, r.drop_last(), by_value);
        }
    }
}

proof fn lemma_merged_at_most<E: SortableEntry>(
    l: Seq<E>,
    r: Seq<E>,
    by_value: bool,
    top: EntryView,
)
    requires
        all_at_most(l, by_value, top),
        all_at_most(r, by_value, top),
    ensures
        all_at_most(merged(l, r, by_value), by_value, top),
    decreases l.len() + r.len(),
{
    if l.len() > 0 && r.len() > 0 {
        if view_lt(sort_view(r.last(), by_value), sort_view(l.last(), by_value)) {
            lemma_merged_at_most(l.drop_last(), r, by_value, top);
            assert(sort_view(l.last(), by_value) == sort_view(l[l.len() - 1], by_value));
        } else {
            lemma_merged_at_most(l, r.drop_last(), by_value, top);
            assert(sort_view(r.last(), by_value) == sort_view(r[r.len() - 1], by_value));
        }
    }
}

proof fn lemma_sorted_push<E: SortableEntry>(s: Seq<E>, x: E, by_value: bool)
    requires
        sorted_by(s, by_value),
        all_at_most(s, by_value, sort_view(x, by_value)),
    ensures
        sorted_by(s.push(x), by_value),
{
    assert forall|i: int, j: int| 0 <= i < j < s.push(x).len() implies !view_lt(
        #[trigger] sort_view(s.push(x)[j], by_value),
        #[trigger] sort_view(s.push(x)[i], by_value),
    ) by {
        if j == s.len() {
            assert(s.push(x)[i] == s[i]);
        } else {
            assert(s.push(x)[i] == s[i]);
            assert(s.push(x)[j] == s[j]);
        }
    }
}

proof fn lemma_sorted_drop_last<E: SortableEntry>(s: Seq<E>, by_value: bool)
    requires
        sorted_by(s, by_value),
        s.len() > 0,
    ensures
        sorted_by(s.drop_last(), by_value),
        all_at_most(s.drop_last(), by_value, sort_view(s.last(), by_value)),
{
    assert forall|i: int, j: int| 0 <= i < j < s.drop_last().len() implies !view_lt(
        #[trigger] sort_view(s.drop_last()[j], by_value),
        #[trigger] sort_view(s.drop_last()[i], by_value),
    ) by {
        assert(s.drop_last()[i] == s[i]);
        assert(s.drop_last()[j] == s[j]);
    }
    assert forall|i: int| 0 <= i < s.drop_last().len() implies !view_lt(
        sort_view(s.last(), by_value),
        #[trigger] sort_view(s.drop_last()[i], by_value),
    ) by {
        assert(s.drop_last()[i] == s[i]);
        assert(s.last() == s[s.len() - 1]);
    }
}

/// Raising the bound keeps it a bound.
proof fn lemma_at_most_weaken<E: SortableEntry>(
    s: Seq<E>,
    by_value: bool,
    low: EntryView,
    high: EntryView,
)
    requires
        all_at_most(s, by_value, low),
        !view_lt(high, low),
    ensures
        all_at_most(s, by_value, high),
{
    assert forall|i: int| 0 <= i < s.len() implies !view_lt(
        high,
        #[trigger] sort_view(s[i], by_value),
    ) by {
        lemma_view_order(high, low, sort_view(s[i], by_value));
        lemma_view_order(low, high, sort_view(s[i], by_value));
        lemma_view_order(sort_view(s[i], by_value), high, low);
    }
}

proof fn lemma_merged_sorted<E: SortableEntry>(l: Seq<E>, r: Seq<E>, by_value: bool)
    requires
        sorted_by(l, by_value),
        sorted_by(r, by_value),
    ensures
        sorted_by(merged(l, r, by_value), by_value),
    decreases l.len() + r.len(),
{
    if l.len() > 0 && r.len() > 0 {
        let lx = sort_view(l.last(), by_value);
        let rx = sort_view(r.last(), by_value);
        lemma_sorted_drop_last(l, by_value);
        lemma_sorted_drop_last(r, by_value);
        lemma_view_order(lx, rx, lx);
        if view_lt(rx, lx) {
            lemma_merged_sorted(l.drop_last(), r, by_value);
            assert(r =~= r.drop_last().push(r.last()));
            lemma_at_most_weaken(r.drop_last(), by_value, rx, lx);
            assert(all_at_most(r, by_value, lx));
            lemma_merged_at_most(l.drop_last(), r, by_value, lx);
            lemma_sorted_push(merged(l.drop_last(), r, by_value), l.last(), by_value);
        } else {
            lemma_merged_sorted(l, r.drop_last(), by_value);
            assert(l =~= l.drop_last().push(l.last()));
            lemma_at_most_weaken(l.drop_last(), by_value, lx, rx);
            assert(all_at_most(l, by_value, rx));
            lemma_merged_at_most(l, r.drop_last(), by_value, rx);
            lemma_sorted_push(merged(l, r.drop_last(), by_value), r.last(), by_value);
        }
    }
}

/// No entry of `s` has view `v` when every view in `s` is below `v`.
proof fn lemma_members_empty_below<E: SortableEntry>(
    s: Seq<E>,
    by_value: bool,
    top: EntryView,
    v: EntryView,
)
    requires
        all_at_most(s, by_value, top),
        view_lt(top, v),
    ensures
        members(s, by_value, v) == Seq::<E>::empty(),
{
    assert forall|i: int| 0 <= i < s.len() implies !(#[trigger] has_view::<E>(by_value, v)(s[i])) by {
        lemma_view_order(top, v, sort_view(s[i], by_value));
        lemma_view_order(sort_view(s[i], by_value), top, v);
    }
    s.lemma_all_neg_filter_empty(has_view(by_value, v));
}

proof fn lemma_merged_members<E: SortableEntry>(
    l: Seq<E>,
    r: Seq<E>,
    by_value: bool,
    v: EntryView,
)
    requires
        sorted_by(l, by_value),
        sorted_by(r, by_value),
    ensures
        members(merged(l, r, by_value), by_value, v) == members(l, by_value, v) + members(
            r,
            by_value,
            v,
        ),
    decreases l.len() + r.len(),
{
    let p = has_view::<E>(by_value, v);
    if l.len() == 0 {
        assert(l.filter(p) =~= Seq::<E>::empty()) by {
            reveal(Seq::filter);
        }
        assert(members(l, by_value, v) + members(r, by_value, v) =~= members(r, by_value, v));
    } else if r.len() == 0 {
        assert(r.filter(p) =~= Seq::<E>::empty()) by {
            reveal(Seq::filter);
        }
        assert(members(l, by_value, v) + members(r, by_value, v) =~= members(l, by_value, v));
    } else {
        let lx = sort_view(l.last(), by_value);
        let rx = sort_view(r.last(), by_value);
        lemma_sorted_drop_last(l, by_value);
        lemma_sorted_drop_last(r, by_value);
        if view_lt(rx, lx) {
            let m = merged(l.drop_last(), r, by_value);
            lemma_merged_members(l.drop_last(), r, by_value, v);
            m.lemma_filter_push(l.last(), p);
            l.drop_last().lemma_filter_push(l.last(), p);
            assert(l.drop_last().push(l.last()) =~= l);
            if lx == v {
                assert(r =~= r.drop_last().push(r.last()));
                assert(all_at_most(r, by_value, rx)) by {
                    assert forall|i: int| 0 <= i < r.len() implies !view_lt(
                        rx,
                        #[trigger] sort_view(r[i], by_value),
                    ) by {
                        if i < r.len() - 1 {
                            assert(r.drop_last()[i] == r[i]);
                        } else {
                            lemma_view_order(rx, rx, rx);
                        }
                    }
                }
                lemma_members_empty_below(r, by_value, rx, v);
                assert(members(l, by_value, v) + members(r, by_value, v) =~= members(
                    l,
                    by_value,
                    v,
                ));
                assert(members(l.drop_last(), by_value, v).push(l.last()) + Seq::<E>::empty()
                    =~= members(l.drop_last(), by_value, v).push(l.last()));
            } else {
            }
        } else {
            let m = merged(l, r.drop_last(), by_value);
            lemma_merged_members(l, r.drop_last(), by_value, v);
            m.lemma_filter_push(r.last(), p);
            r.drop_last().lemma_filter_push(r.last(), p);
            assert(r.drop_last().push(r.last()) =~= r);
            if rx == v {
                assert((members(l, by_value, v) + members(r.drop_last(), by_value, v)).push(
                    r.last(),
                ) =~= members(l, by_value, v) + members(r.drop_last(), by_value, v).push(
                    r.last(),
                ));
            }
        }
    }
}

proof fn lemma_merged_total<E: SortableEntry>(l: Seq<E>, r: Seq<E>, by_value: bool, values: bool)
    ensures
        total_size(merged(l, r, by_value), values) == total_size(l, values) + total_size(
            r,
            values,
        ),
    decreases l.len() + r.len(),
{
    if l.len() == 0 {
    } else if r.len() == 0 {
    } else if view_lt(sort_view(r.last(), by_value), sort_view(l.last(), by_value)) {
        lemma_merged_total(l.drop_last(), r, by_value, values);
        let m = merged(l.drop_last(), r, by_value);
        assert(m.push(l.last()).drop_last() =~= m);
    } else {
        lemma_merged_total(l, r.drop_last(), by_value, values);
        let m = merged(l, r.drop_last(), by_value);
        assert(m.push(r.last()).drop_last() =~= m);
    }
}

/// The stable merge sort of `s`: each half sorted, then the two merged.
pub open spec fn stably_sorted<E: SortableEntry>(s: Seq<E>, by_value: bool) -> Seq<E>
    decreases s.len(),
{
    if s.len() <= 1 {
        s
    } else {
        let mid = s.len() / 2;
        merged(
            stably_sorted(s.take(mid as int), by_value),
            stably_sorted(s.skip(mid as int), by_value),
            by_value,
        )
    }
}

/// The stable merge sort is sorted, keeps the entries of each view in their
/// order, and keeps the size totals and well-formedness.
pub proof fn lemma_stably_sorted<E: SortableEntry>(s: Seq<E>, by_value: bool)
    ensures
        sorted_by(stably_sorted(s, by_value), by_value),
        forall|w: EntryView| #[trigger]
            members(stably_sorted(s, by_value), by_value, w) == members(s, by_value, w),
        total_size(stably_sorted(s, by_value), false) == total_size(s, false),
        total_size(stably_sorted(s, by_value), true) == total_size(s, true),
        all_well_formed(s) ==> all_well_formed(stably_sorted(s, by_value)),
    decreases s.len(),
{
    if s.len() > 1 {
        let mid = s.len() / 2;
        let lv = s.take(mid as int);
        let rv = s.skip(mid as int);
        assert(s =~= lv + rv);
        lemma_stably_sorted(lv, by_value);
        lemma_stably_sorted(rv, by_value);
        let sl = stably_sorted(lv, by_value);
        let sr = stably_sorted(rv, by_value);
        lemma_merged_sorted(sl, sr, by_value);
        lemma_merged_total(sl, sr, by_value, false);
        lemma_merged_total(sl, sr, by_value, true);
        crate::sortable::lemma_total_size_add(lv, rv, false);
        crate::sortable::lemma_total_size_add(lv, rv, true);
        if all_well_formed(s) {
            assert forall|i: int| 0 <= i < lv.len() implies (#[trigger] lv[i]).well_formed() by {
                assert(lv[i] == s[i]);
            }
            assert forall|i: int| 0 <= i < rv.len() implies (#[trigger] rv[i]).well_formed() by {
                assert(rv[i] == s[i + mid]);
            }
            lemma_merged_well_formed(sl, sr, by_value);
        }
        assert forall|w: EntryView| #[trigger]
            members(stably_sorted(s, by_value), by_value, w) == members(s, by_value, w) by {
            lemma_merged_members(sl, sr, by_value, w);
            Seq::filter_distributes_over_add(lv, rv, has_view(by_value, w));
        }
    }
}

/// `view_lt` of the two entries' views, computed with the entries' own
/// comparison methods.
pub fn view_less<E: SortableEntry>(a: &E, b: &E, by_value: bool) -> (r: bool)
    requires
        a.well_formed(),
        b.well_formed(),
    ensures
        r == view_lt(sort_view(*a, by_value), sort_view(*b, by_value)),
{
    if by_value {
        match a.cmp_entry(b) {
            Ordering::Less => true,
            _ => false,
        }
    } else {
        match a.cmp_key(b) {
            Ordering::Less => true,
            _ => false,
        }
    }
}

/// Whether the two entries have the same view.
pub fn same_view<E: SortableEntry>(a: &E, b: &E, by_value: bool) -> (r: bool)
    requires
        a.well_formed(),
        b.well_formed(),
    ensures
        r == (sort_view(*a, by_value) == sort_view(*b, by_value)),
{
    proof {
        lemma_view_order(sort_view(*a, by_value), sort_view(*a, by_value), sort_view(*b, by_value));
    }
    if by_value {
        match a.cmp_entry(b) {
            Ordering::Equal => true,
            _ => false,
        }
    } else {
        match a.cmp_key(b) {
            Ordering::Equal => true,
            _ => false,
        }
    }
}

/// The entries of `rev` in reverse order.
pub fn reversed<E>(rev: Vec<E>) -> (out: Vec<E>)
    ensures
        out@ == rev@.reverse(),
{
    let ghost target = rev@.reverse();
    let mut rev = rev;
    let mut out: Vec<E> = Vec::new();
    assert(target =~= out@ + rev@.reverse());
    while rev.len() > 0
        invariant
            target == out@ + rev@.reverse(),
        decreases rev@.len(),
    {
        let ghost prev = rev@;
        let y = rev.pop().unwrap();
        out.push(y);
        proof {
            assert(prev =~= rev@.push(y));
            assert(prev.reverse() =~= seq![y] + rev@.reverse());
            assert(target =~= out@ + rev@.reverse());
        }
    }
    assert(rev@.reverse() =~= Seq::<E>::empty());
    assert(target =~= out@);
    out
}

/// Merges two sorted vectors, entries of `left` before equal entries of `right`.
fn merge<E: SortableEntry>(left: Vec<E>, right: Vec<E>, by_value: bool) -> (out: Vec<E>)
    requires
        all_well_formed(left@),
        all_well_formed(right@),
    ensures
        out@ == merged(left@, right@, by_value),
{
    let ghost target = merged(left@, right@, by_value);
    let mut l = left;
    let mut r = right;
    let mut rev: Vec<E> = Vec::new();
    assert(rev@.reverse() =~= Seq::<E>::empty());
    assert(target =~= merged(l@, r@, by_value) + rev@.reverse());
    while l.len() > 0 || r.len() > 0
        invariant
            target == merged(l@, r@, by_value) + rev@.reverse(),
            all_well_formed(l@),
            all_well_formed(r@),
        decreases l@.len() + r@.len(),
    {
        let take_left = if l.len() == 0 {
            false
        } else if r.len() == 0 {
            true
        } else {
            view_less(&r[r.len() - 1], &l[l.len() - 1], by_value)
        };
        let ghost pl = l@;
        let ghost pr = r@;
        let ghost prev = rev@;
        if take_left {
            let x = l.pop().unwrap();
            rev.push(x);
            proof {
                assert(pl =~= l@.push(x));
            }
        } else {
            let x = r.pop().unwrap();
            rev.push(x);
            proof {
                assert(pr =~= r@.push(x));
            }
        }
        proof {
            assert(rev@.reverse() =~= seq![rev@.last()] + prev.reverse());
            assert(merged(pl, pr, by_value) =~= merged(l@, r@, by_value).push(rev@.last()));
            assert(target =~= merged(l@, r@, by_value) + rev@.reverse());
        }
    }
    assert(merged(l@, r@, by_value) =~= Seq::<E>::empty());
    assert(target =~= rev@.reverse());
    let out = reversed(rev);
    out
}

/// Sorts `v` stably: by key alone, or by key and then the category of the value.
/// Entries with equal views keep their relative order.
pub fn stable_sort<E: SortableEntry>(v: Vec<E>, by_value: bool) -> (r: Vec<E>)
    requires
        all_well_formed(v@),
    ensures
        sorted_by(r@, by_value),
        forall|w: EntryView| #[trigger]
            members(r@, by_value, w) == members(v@, by_value, w),
        total_size(r@, false) == total_size(v@, false),
        total_size(r@, true) == total_size(v@, true),
        all_well_formed(r@),
        r@.len() == v@.len(),
        r@ == stably_sorted(v@, by_value),
    decreases v@.len(),
{
    if v.len() <= 1 {
        return v;
    }
    let ghost v0 = v@;
    let mut left = v;
    let mid = left.len() / 2;
    let right = left.split_off(mid);
    let ghost lv = left@;
    let ghost rv = right@;
    proof {
        assert(v0 =~= lv + rv);
        assert(lv =~= v0.take(mid as int));
        assert(rv =~= v0.skip(mid as int));
    }
    let sl = stable_sort(left, by_value);
    let sr = stable_sort(right, by_value);
    let out = merge(sl, sr, by_value);
    proof {
        lemma_merged_sorted(sl@, sr@, by_value);
        lemma_merged_well_formed(sl@, sr@, by_value);
        lemma_merged_total(sl@, sr@, by_value, false);
        lemma_merged_total(sl@, sr@, by_value, true);
        crate::sortable::lemma_total_size_add(lv, rv, false);
        crate::sortable::lemma_total_size_add(lv, rv, true);
        assert forall|w: EntryView| #[trigger]
            members(out@, by_value, w) == members(v0, by_value, w) by {
            lemma_merged_members(sl@, sr@, by_value, w);
            Seq::filter_distributes_over_add(lv, rv, has_view(by_value, w));
        }
    }
    out
}

} // verus!
