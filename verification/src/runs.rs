//! The three passes over runs of adjacent entries that `sort_and_dedup` makes,
//! as spec functions, with what they give on sorted input.
use vstd::prelude::*;

use crate::order::{CategoryView, EntryView, KeyView, lemma_view_order, view_lt};
use crate::sortable::{
    SortableEntry,
    all_well_formed,
    first_of,
    has_key,
    has_tombstone,
    has_view,
    key_group,
    last_of,
    live_entries,
    members,
    sort_view,
    sorted_by,
    strictly_sorted_by,
    category_group,
    has_category,
    lemma_members_prepend,
};

verus! {

/// No view in `s` is below `low`.
pub open spec fn all_at_least<E: SortableEntry>(s: Seq<E>, by_value: bool, low: EntryView) -> bool {
    forall|i: int| 0 <= i < s.len() ==> !view_lt(#[trigger] sort_view(s[i], by_value), low)
}

/// Keeps, of each run of adjacent entries with equal keys, the last entry.
pub open spec fn last_of_key_runs<E: SortableEntry>(t: Seq<E>) -> Seq<E>
    decreases t.len(),
{
    if t.len() == 0 {
        t
    } else {
        let rest = last_of_key_runs(t.drop_first());
        if t.len() > 1 && t[1].key_view() == t[0].key_view() {
            rest
        } else {
            seq![t[0]] + rest
        }
    }
}

/// Keeps, of each run of adjacent entries with equal views, the first entry;
/// `prev` is the view of the entry just before `t`, if any.
pub open spec fn first_of_runs_after<E: SortableEntry>(
    prev: Option<EntryView>,
    t: Seq<E>,
    by_value: bool,
) -> Seq<E>
    decreases t.len(),
{
    if t.len() == 0 {
        t
    } else {
        let rest = first_of_runs_after(Some(sort_view(t[0], by_value)), t.drop_first(), by_value);
        if prev == Some(sort_view(t[0], by_value)) {
            rest
        } else {
            seq![t[0]] + rest
        }
    }
}

/// Keeps, of each run of adjacent entries with equal views, the first entry.
pub open spec fn first_of_runs<E: SortableEntry>(s: Seq<E>, by_value: bool) -> Seq<E> {
    first_of_runs_after(None, s, by_value)
}

/// The run of entries with key `k` at the front of `t` holds a tombstone.
pub open spec fn run_has_tombstone<E: SortableEntry>(t: Seq<E>, k: KeyView) -> bool
    decreases t.len(),
{
    t.len() > 0 && t[0].key_view() == k && (t[0].category_view() is Deleted || run_has_tombstone(
        t.drop_first(),
        k,
    ))
}

/// Drops every entry that a later tombstone of its run of equal keys cancels:
/// of each run that holds a tombstone, what comes before its last tombstone.
pub open spec fn prune_runs<E: SortableEntry>(s: Seq<E>) -> Seq<E>
    decreases s.len(),
{
    if s.len() == 0 {
        s
    } else {
        let rest = prune_runs(s.drop_first());
        if run_has_tombstone(s.drop_first(), s[0].key_view()) {
            rest
        } else {
            seq![s[0]] + rest
        }
    }
}

/// The key-only view of an entry with key `k`.
pub open spec fn key_only(k: KeyView) -> EntryView {
    (k, CategoryView::Deleted)
}

pub proof fn lemma_key_group_members<E: SortableEntry>(s: Seq<E>, k: KeyView)
    ensures
        key_group(s, k) == members(s, false, key_only(k)),
{
    assert(has_key::<E>(k) =~= has_view::<E>(false, key_only(k)));
}

proof fn lemma_sorted_tail<E: SortableEntry>(s: Seq<E>, by_value: bool)
    requires
        sorted_by(s, by_value),
        s.len() > 0,
    ensures
        sorted_by(s.drop_first(), by_value),
        all_at_least(s.drop_first(), by_value, sort_view(s[0], by_value)),
        all_at_least(s, by_value, sort_view(s[0], by_value)),
{
    assert forall|i: int, j: int| 0 <= i < j < s.drop_first().len() implies !view_lt(
        #[trigger] sort_view(s.drop_first()[j], by_value),
        #[trigger] sort_view(s.drop_first()[i], by_value),
    ) by {
        assert(s.drop_first()[i] == s[i + 1]);
        assert(s.drop_first()[j] == s[j + 1]);
    }
    assert forall|i: int| 0 <= i < s.drop_first().len() implies !view_lt(
        #[trigger] sort_view(s.drop_first()[i], by_value),
        sort_view(s[0], by_value),
    ) by {
        assert(s.drop_first()[i] == s[i + 1]);
    }
    assert forall|i: int| 0 <= i < s.len() implies !view_lt(
        #[trigger] sort_view(s[i], by_value),
        sort_view(s[0], by_value),
    ) by {
        if i == 0 {
            lemma_view_order(sort_view(s[0], by_value), sort_view(s[0], by_value), sort_view(s[0], by_value));
        }
    }
}

/// No entry of `s` has view `v` when every view in `s` is above `v`.
pub proof fn lemma_members_empty_above<E: SortableEntry>(
    s: Seq<E>,
    by_value: bool,
    low: EntryView,
    v: EntryView,
)
    requires
        all_at_least(s, by_value, low),
        view_lt(v, low),
    ensures
        members(s, by_value, v) == Seq::<E>::empty(),
{
    assert forall|i: int| 0 <= i < s.len() implies !(#[trigger] has_view::<E>(by_value, v)(s[i])) by {
        lemma_view_order(v, low, sort_view(s[i], by_value));
        lemma_view_order(sort_view(s[i], by_value), v, low);
    }
    s.lemma_all_neg_filter_empty(has_view(by_value, v));
}

/// Strictly above `low` everywhere when at least `mid` everywhere and `low < mid`.
proof fn lemma_at_least_raise<E: SortableEntry>(
    s: Seq<E>,
    by_value: bool,
    low: EntryView,
    mid: EntryView,
)
    requires
        all_at_least(s, by_value, mid),
        view_lt(low, mid),
    ensures
        forall|i: int| 0 <= i < s.len() ==> view_lt(low, #[trigger] sort_view(s[i], by_value)),
        all_at_least(s, by_value, low),
{
    assert forall|i: int| 0 <= i < s.len() implies view_lt(
        low,
        #[trigger] sort_view(s[i], by_value),
    ) by {
        lemma_view_order(low, mid, sort_view(s[i], by_value));
        lemma_view_order(mid, sort_view(s[i], by_value), low);
    }
    assert forall|i: int| 0 <= i < s.len() implies !view_lt(
        #[trigger] sort_view(s[i], by_value),
        low,
    ) by {
        lemma_view_order(low, sort_view(s[i], by_value), low);
    }
}

/// Of sorted input, `last_of_key_runs` keeps exactly the last entry of each key,
/// in strictly increasing key order.
pub proof fn lemma_last_of_key_runs<E: SortableEntry>(t: Seq<E>)
    requires
        sorted_by(t, false),
    ensures
        strictly_sorted_by(last_of_key_runs(t), false),
        forall|v: EntryView| #[trigger]
            members(last_of_key_runs(t), false, v) == last_of(members(t, false, v)),
        t.len() > 0 ==> last_of_key_runs(t).len() > 0 && last_of_key_runs(t)[0].key_view()
            == t[0].key_view(),
        t.len() > 0 ==> all_at_least(last_of_key_runs(t), false, sort_view(t[0], false)),
        all_well_formed(t) ==> all_well_formed(last_of_key_runs(t)),
    decreases t.len(),
{
    if t.len() > 0 {
        let u = t.drop_first();
        let x = t[0];
        let rest = last_of_key_runs(u);
        let xv = sort_view(x, false);
        lemma_sorted_tail(t, false);
        lemma_last_of_key_runs(u);
        if u.len() > 0 {
            lemma_sorted_tail(u, false);
        }
        assert(t =~= seq![x] + u);
        if t.len() > 1 && t[1].key_view() == x.key_view() {
            assert(u[0] == t[1]);
            assert forall|v: EntryView| #[trigger]
                members(last_of_key_runs(t), false, v) == last_of(members(t, false, v)) by {
                lemma_members_prepend(x, u, false, v);
                if xv == v {
                    assert(members(u, false, v).len() > 0) by {
                        u.lemma_filter_contains(has_view(false, v), 0);
                    }
                    assert(members(t, false, v).last() == members(u, false, v).last());
                }
            }
            assert forall|i: int| 0 <= i < rest.len() implies !view_lt(
                #[trigger] sort_view(rest[i], false),
                xv,
            ) by {
                assert(sort_view(u[0], false) == xv);
            }
        } else {
            let r = last_of_key_runs(t);
            assert(r == seq![x] + rest);
            if u.len() > 0 {
                assert(u[0] == t[1]);
                lemma_view_order(xv, sort_view(u[0], false), xv);
                assert(view_lt(xv, sort_view(u[0], false)));
                lemma_at_least_raise(rest, false, xv, sort_view(u[0], false));
                lemma_at_least_raise(u, false, xv, sort_view(u[0], false));
            }
            assert forall|i: int, j: int| 0 <= i < j < r.len() implies view_lt(
                #[trigger] sort_view(r[i], false),
                #[trigger] sort_view(r[j], false),
            ) by {
                if i == 0 {
                    assert(r[j] == rest[j - 1]);
                } else {
                    assert(r[j] == rest[j - 1]);
                    assert(r[i] == rest[i - 1]);
                }
            }
            assert forall|v: EntryView| #[trigger]
                members(r, false, v) == last_of(members(t, false, v)) by {
                lemma_members_prepend(x, u, false, v);
                lemma_members_prepend(x, rest, false, v);
                if xv == v {
                    if u.len() > 0 {
                        lemma_members_empty_above(u, false, sort_view(u[0], false), v);
                    } else {
                        assert(u.filter(has_view(false, v)) =~= Seq::<E>::empty()) by {
                            reveal(Seq::filter);
                        }
                    }
                    assert(seq![x] + Seq::<E>::empty() =~= seq![x]);
                    assert(last_of(Seq::<E>::empty()) =~= Seq::<E>::empty());
                }
            }
            assert forall|i: int| 0 <= i < r.len() implies !view_lt(
                #[trigger] sort_view(r[i], false),
                xv,
            ) by {
                if i == 0 {
                    lemma_view_order(xv, xv, xv);
                } else {
                    assert(r[i] == rest[i - 1]);
                }
            }
            if all_well_formed(t) {
                assert forall|i: int| 0 <= i < r.len() implies (#[trigger] r[i]).well_formed() by {
                    if i > 0 {
                        assert(r[i] == rest[i - 1]);
                    }
                }
            }
        }
    }
}

/// Of sorted input, `first_of_runs_after` keeps exactly the first entry of each
/// view, except the view `prev`, in strictly increasing order.
pub proof fn lemma_first_of_runs<E: SortableEntry>(prev: Option<EntryView>, t: Seq<E>, by_value: bool)
    requires
        sorted_by(t, by_value),
        prev matches Some(p) ==> all_at_least(t, by_value, p),
    ensures
        strictly_sorted_by(first_of_runs_after(prev, t, by_value), by_value),
        prev matches Some(p) ==> forall|i: int|
            0 <= i < first_of_runs_after(prev, t, by_value).len() ==> view_lt(
                p,
                #[trigger] sort_view(first_of_runs_after(prev, t, by_value)[i], by_value),
            ),
        forall|v: EntryView| #[trigger]
            members(first_of_runs_after(prev, t, by_value), by_value, v) == (if prev == Some(v) {
                Seq::<E>::empty()
            } else {
                first_of(members(t, by_value, v))
            }),
        all_well_formed(t) ==> all_well_formed(first_of_runs_after(prev, t, by_value)),
    decreases t.len(),
{
    let r = first_of_runs_after(prev, t, by_value);
    if t.len() == 0 {
        assert forall|v: EntryView| #[trigger]
            members(r, by_value, v) == (if prev == Some(v) {
                Seq::<E>::empty()
            } else {
                first_of(members(t, by_value, v))
            }) by {
            assert(t.filter(has_view(by_value, v)) =~= Seq::<E>::empty()) by {
                reveal(Seq::filter);
            }
        }
    } else {
        let y = t[0];
        let u = t.drop_first();
        let yv = sort_view(y, by_value);
        lemma_sorted_tail(t, by_value);
        let rest = first_of_runs_after(Some(yv), u, by_value);
        lemma_first_of_runs(Some(yv), u, by_value);
        assert(t =~= seq![y] + u);
        if prev == Some(yv) {
            assert forall|v: EntryView| #[trigger]
                members(r, by_value, v) == (if prev == Some(v) {
                    Seq::<E>::empty()
                } else {
                    first_of(members(t, by_value, v))
                }) by {
                lemma_members_prepend(y, u, by_value, v);
            }
        } else {
            assert(r == seq![y] + rest);
            assert forall|i: int, j: int| 0 <= i < j < r.len() implies view_lt(
                #[trigger] sort_view(r[i], by_value),
                #[trigger] sort_view(r[j], by_value),
            ) by {
                assert(r[j] == rest[j - 1]);
                if i > 0 {
                    assert(r[i] == rest[i - 1]);
                }
            }
            if let Some(p) = prev {
                assert(!view_lt(yv, p));
                lemma_view_order(p, yv, p);
                assert(view_lt(p, yv));
                assert forall|i: int| 0 <= i < r.len() implies view_lt(
                    p,
                    #[trigger] sort_view(r[i], by_value),
                ) by {
                    if i > 0 {
                        assert(r[i] == rest[i - 1]);
                        lemma_view_order(p, yv, sort_view(rest[i - 1], by_value));
                    }
                }
            }
            assert forall|v: EntryView| #[trigger]
                members(r, by_value, v) == (if prev == Some(v) {
                    Seq::<E>::empty()
                } else {
                    first_of(members(t, by_value, v))
                }) by {
                lemma_members_prepend(y, u, by_value, v);
                lemma_members_prepend(y, rest, by_value, v);
                if yv == v {
                    assert(seq![y] + Seq::<E>::empty() =~= seq![y]);
                    assert((seq![y] + members(u, by_value, v))[0] == y);
                } else if prev == Some(v) {
                    lemma_view_order(v, yv, v);
                    lemma_members_empty_above(u, by_value, yv, v);
                    assert(first_of(Seq::<E>::empty()) =~= Seq::<E>::empty());
                }
            }
            if all_well_formed(t) {
                assert forall|i: int| 0 <= i < r.len() implies (#[trigger] r[i]).well_formed() by {
                    if i > 0 {
                        assert(r[i] == rest[i - 1]);
                    }
                }
            }
        }
    }
}

pub proof fn lemma_key_group_prepend<E: SortableEntry>(x: E, s: Seq<E>, k: KeyView)
    ensures
        key_group(seq![x] + s, k) == (if x.key_view() == k {
            seq![x] + key_group(s, k)
        } else {
            key_group(s, k)
        }),
{
    s.lemma_filter_prepend(x, has_key(k));
    assert(Seq::<E>::empty() + key_group(s, k) =~= key_group(s, k));
}

proof fn lemma_has_tombstone_prepend<E: SortableEntry>(x: E, s: Seq<E>)
    ensures
        has_tombstone(seq![x] + s) == (x.category_view() is Deleted || has_tombstone(s)),
{
    let t = seq![x] + s;
    if has_tombstone(s) {
        let i = choose|i: int| 0 <= i < s.len() && (#[trigger] s[i].category_view() is Deleted);
        assert(t[i + 1] == s[i]);
    }
    if has_tombstone(t) {
        let i = choose|i: int| 0 <= i < t.len() && (#[trigger] t[i].category_view() is Deleted);
        if i > 0 {
            assert(t[i] == s[i - 1]);
        }
    }
    if x.category_view() is Deleted {
        assert(t[0] == x);
    }
}

proof fn lemma_live_entries_untouched<E: SortableEntry>(g: Seq<E>)
    requires
        !has_tombstone(g),
    ensures
        live_entries(g) == g,
{
    if g.len() > 0 {
        assert(g =~= seq![g[0]] + g.drop_first());
        lemma_has_tombstone_prepend(g[0], g.drop_first());
    }
}

/// What `prune_runs` keeps is well formed, and keeps the first key of `s`.
pub proof fn lemma_prune_runs_basic<E: SortableEntry>(s: Seq<E>)
    ensures
        all_well_formed(s) ==> all_well_formed(prune_runs(s)),
        s.len() > 0 ==> prune_runs(s).len() > 0 && prune_runs(s)[0].key_view() == s[0].key_view(),
    decreases s.len(),
{
    if s.len() > 0 {
        let t = s.drop_first();
        lemma_prune_runs_basic(t);
        let rest = prune_runs(t);
        if all_well_formed(s) {
            assert forall|i: int| 0 <= i < t.len() implies (#[trigger] t[i]).well_formed() by {
                assert(t[i] == s[i + 1]);
            }
            if !run_has_tombstone(t, s[0].key_view()) {
                let r = seq![s[0]] + rest;
                assert forall|i: int| 0 <= i < r.len() implies (#[trigger] r[i]).well_formed() by {
                    if i > 0 {
                        assert(r[i] == rest[i - 1]);
                    }
                }
            }
        }
    }
}

/// On key-sorted input the run of key `k` at the front is the whole key group.
proof fn lemma_run_tombstone_sorted<E: SortableEntry>(t: Seq<E>, k: KeyView)
    requires
        sorted_by(t, false),
        all_at_least(t, false, key_only(k)),
    ensures
        run_has_tombstone(t, k) == has_tombstone(key_group(t, k)),
    decreases t.len(),
{
    if t.len() == 0 {
        assert(key_group(t, k) =~= Seq::<E>::empty()) by {
            reveal(Seq::filter);
        }
    } else {
        let y = t[0];
        let u = t.drop_first();
        assert(t =~= seq![y] + u);
        lemma_sorted_tail(t, false);
        lemma_key_group_prepend(y, u, k);
        if y.key_view() != k {
            let yv = sort_view(y, false);
            assert(!view_lt(yv, key_only(k)));
            lemma_view_order(key_only(k), yv, key_only(k));
            lemma_key_group_members(u, k);
            lemma_members_empty_above(u, false, yv, key_only(k));
            assert(!has_tombstone(Seq::<E>::empty()));
        } else {
            lemma_has_tombstone_prepend(y, key_group(u, k));
            if !(y.category_view() is Deleted) {
                lemma_run_tombstone_sorted(u, k);
            }
        }
    }
}

/// On key-sorted input, `prune_runs` leaves of each key group its live entries.
pub proof fn lemma_prune_runs_groups<E: SortableEntry>(s: Seq<E>)
    requires
        sorted_by(s, false),
    ensures
        forall|k: KeyView| #[trigger]
            key_group(prune_runs(s), k) == live_entries(key_group(s, k)),
    decreases s.len(),
{
    if s.len() == 0 {
        assert forall|k: KeyView| #[trigger]
            key_group(prune_runs(s), k) == live_entries(key_group(s, k)) by {
            assert(key_group(s, k) =~= Seq::<E>::empty()) by {
                reveal(Seq::filter);
            }
        }
    } else {
        let x = s[0];
        let t = s.drop_first();
        let rest = prune_runs(t);
        assert(s =~= seq![x] + t);
        lemma_sorted_tail(s, false);
        lemma_prune_runs_groups(t);
        let shadowed = run_has_tombstone(t, x.key_view());
        assert forall|k: KeyView| #[trigger]
            key_group(prune_runs(s), k) == live_entries(key_group(s, k)) by {
            lemma_key_group_prepend(x, t, k);
            lemma_key_group_prepend(x, rest, k);
            if k == x.key_view() {
                let g = key_group(t, k);
                assert((seq![x] + g).drop_first() =~= g);
                lemma_run_tombstone_sorted(t, k);
                if !shadowed {
                    lemma_live_entries_untouched(g);
                }
            }
        }
    }
}

/// The entries with key `k` and category `c` are those of the key group of `k`
/// whose category is `c`.
pub proof fn lemma_members_by_value<E: SortableEntry>(s: Seq<E>, k: KeyView, c: CategoryView)
    ensures
        members(s, true, (k, c)) == category_group(key_group(s, k), c),
    decreases s.len(),
{
    if s.len() == 0 {
        assert(members(s, true, (k, c)) =~= Seq::<E>::empty()) by {
            reveal(Seq::filter);
        }
        assert(key_group(s, k) =~= Seq::<E>::empty()) by {
            reveal(Seq::filter);
        }
        assert(category_group(Seq::<E>::empty(), c) =~= Seq::<E>::empty()) by {
            reveal(Seq::filter);
        }
    } else {
        let t = s.drop_last();
        let x = s.last();
        lemma_members_by_value(t, k, c);
        assert(t.push(x) =~= s);
        t.lemma_filter_push(x, has_view(true, (k, c)));
        t.lemma_filter_push(x, has_key(k));
        key_group(t, k).lemma_filter_push(x, has_category(c));
    }
}

/// A strictly sorted sequence is determined by which entries it holds of each view.
pub proof fn lemma_strictly_sorted_unique<E: SortableEntry>(a: Seq<E>, b: Seq<E>, by_value: bool)
    requires
        strictly_sorted_by(a, by_value),
        strictly_sorted_by(b, by_value),
        forall|v: EntryView| #[trigger] members(a, by_value, v) == members(b, by_value, v),
    ensures
        a == b,
    decreases a.len() + b.len(),
{
    if a.len() == 0 && b.len() == 0 {
        assert(a =~= b);
    } else if a.len() == 0 {
        let v = sort_view(b[0], by_value);
        b.lemma_filter_contains(has_view(by_value, v), 0);
        assert(members(a, by_value, v) =~= Seq::<E>::empty()) by {
            reveal(Seq::filter);
        }
        assert(members(b, by_value, v).contains(b[0]));
        assert(false);
    } else if b.len() == 0 {
        let v = sort_view(a[0], by_value);
        a.lemma_filter_contains(has_view(by_value, v), 0);
        assert(members(b, by_value, v) =~= Seq::<E>::empty()) by {
            reveal(Seq::filter);
        }
        assert(members(a, by_value, v).contains(a[0]));
        assert(false);
    } else {
        let a0 = a[0];
        let b0 = b[0];
        let av = sort_view(a0, by_value);
        let bv = sort_view(b0, by_value);
        let ta = a.drop_first();
        let tb = b.drop_first();
        assert(a =~= seq![a0] + ta);
        assert(b =~= seq![b0] + tb);
        // Every later entry of a strictly sorted sequence is above its first.
        assert(forall|i: int| 0 <= i < ta.len() ==> view_lt(av, #[trigger] sort_view(ta[i], by_value))) by {
            assert forall|i: int| 0 <= i < ta.len() implies view_lt(av, #[trigger] sort_view(ta[i], by_value)) by {
                assert(ta[i] == a[i + 1]);
            }
        }
        assert(forall|i: int| 0 <= i < tb.len() ==> view_lt(bv, #[trigger] sort_view(tb[i], by_value))) by {
            assert forall|i: int| 0 <= i < tb.len() implies view_lt(bv, #[trigger] sort_view(tb[i], by_value)) by {
                assert(tb[i] == b[i + 1]);
            }
        }
        lemma_at_least_from_above(ta, by_value, av);
        lemma_at_least_from_above(tb, by_value, bv);
        // The first entries have the same view.
        lemma_view_order(av, bv, av);
        if view_lt(av, bv) {
            lemma_members_prepend(b0, tb, by_value, av);
            lemma_members_empty_above(tb, by_value, bv, av);
            lemma_members_prepend(a0, ta, by_value, av);
            assert(members(a, by_value, av).len() > 0);
            assert(members(b, by_value, av) =~= Seq::<E>::empty());
        } else if view_lt(bv, av) {
            lemma_members_prepend(a0, ta, by_value, bv);
            lemma_members_empty_above(ta, by_value, av, bv);
            lemma_members_prepend(b0, tb, by_value, bv);
            assert(members(b, by_value, bv).len() > 0);
            assert(members(a, by_value, bv) =~= Seq::<E>::empty());
        }
        assert(av == bv);
        lemma_view_order(av, av, av);
        lemma_members_prepend(a0, ta, by_value, av);
        lemma_members_prepend(b0, tb, by_value, av);
        assert forall|v: EntryView| #[trigger] members(ta, by_value, v) == members(tb, by_value, v) by {
            lemma_members_prepend(a0, ta, by_value, v);
            lemma_members_prepend(b0, tb, by_value, v);
            if v == av {
                lemma_members_empty_strictly_above(ta, by_value, av);
                lemma_members_empty_strictly_above(tb, by_value, av);
            }
        }
        assert(strictly_sorted_by(ta, by_value)) by {
            assert forall|i: int, j: int| 0 <= i < j < ta.len() implies view_lt(
                #[trigger] sort_view(ta[i], by_value),
                #[trigger] sort_view(ta[j], by_value),
            ) by {
                assert(ta[i] == a[i + 1]);
                assert(ta[j] == a[j + 1]);
            }
        }
        assert(strictly_sorted_by(tb, by_value)) by {
            assert forall|i: int, j: int| 0 <= i < j < tb.len() implies view_lt(
                #[trigger] sort_view(tb[i], by_value),
                #[trigger] sort_view(tb[j], by_value),
            ) by {
                assert(tb[i] == b[i + 1]);
                assert(tb[j] == b[j + 1]);
            }
        }
        lemma_strictly_sorted_unique(ta, tb, by_value);
        assert(members(a, by_value, av) == seq![a0] + members(ta, by_value, av));
        assert(members(b, by_value, av) == seq![b0] + members(tb, by_value, av));
        assert((seq![a0] + members(ta, by_value, av))[0] == a0);
        assert((seq![b0] + members(tb, by_value, av))[0] == b0);
        assert(a0 == b0);
        assert(ta == tb);
    }
}

/// No entry of `s` has view `v` when every view in `s` is strictly above `v`.
proof fn lemma_members_empty_strictly_above<E: SortableEntry>(s: Seq<E>, by_value: bool, v: EntryView)
    requires
        forall|i: int| 0 <= i < s.len() ==> view_lt(v, #[trigger] sort_view(s[i], by_value)),
    ensures
        members(s, by_value, v) == Seq::<E>::empty(),
{
    assert forall|i: int| 0 <= i < s.len() implies !(#[trigger] has_view::<E>(by_value, v)(s[i])) by {
        lemma_view_order(v, v, v);
    }
    s.lemma_all_neg_filter_empty(has_view(by_value, v));
}

/// Strictly above `low` everywhere gives at least `low` everywhere.
proof fn lemma_at_least_from_above<E: SortableEntry>(s: Seq<E>, by_value: bool, low: EntryView)
    requires
        forall|i: int| 0 <= i < s.len() ==> view_lt(low, #[trigger] sort_view(s[i], by_value)),
    ensures
        all_at_least(s, by_value, low),
{
    assert forall|i: int| 0 <= i < s.len() implies !view_lt(
        #[trigger] sort_view(s[i], by_value),
        low,
    ) by {
        lemma_view_order(low, sort_view(s[i], by_value), low);
    }
}

/// In a sequence strictly sorted by key and value, every key group is live as it
/// is: a tombstone can only lead its group.
pub proof fn lemma_live_of_strictly_sorted<E: SortableEntry>(s: Seq<E>, k: KeyView)
    requires
        strictly_sorted_by(s, true),
    ensures
        live_entries(key_group(s, k)) == key_group(s, k),
    decreases s.len(),
{
    if s.len() == 0 {
        assert(key_group(s, k) =~= Seq::<E>::empty()) by {
            reveal(Seq::filter);
        }
    } else {
        let x = s[0];
        let t = s.drop_first();
        assert(s =~= seq![x] + t);
        assert(strictly_sorted_by(t, true)) by {
            assert forall|i: int, j: int| 0 <= i < j < t.len() implies view_lt(
                #[trigger] sort_view(t[i], true),
                #[trigger] sort_view(t[j], true),
            ) by {
                assert(t[i] == s[i + 1]);
                assert(t[j] == s[j + 1]);
            }
        }
        lemma_key_group_prepend(x, t, k);
        if x.key_view() == k {
            let g = key_group(t, k);
            assert((seq![x] + g).drop_first() =~= g);
            if has_tombstone(g) {
                let i = choose|i: int| 0 <= i < g.len() && (#[trigger] g[i].category_view() is Deleted);
                assert(g.contains(g[i]));
                t.lemma_filter_contains_rev(has_key(k), g[i]);
                let j = choose|j: int| 0 <= j < t.len() && t[j] == g[i];
                t.lemma_filter_pred(has_key(k), i);
                assert(s[j + 1] == t[j]);
                assert(view_lt(sort_view(s[0], true), sort_view(s[j + 1], true)));
                lemma_view_order(sort_view(x, true), sort_view(x, true), sort_view(x, true));
                assert(false);
            }
        } else {
            lemma_live_of_strictly_sorted(t, k);
        }
    }
}

/// Entries of a key-only view other than "key and `Deleted`" do not exist.
pub proof fn lemma_key_members_other_category<E: SortableEntry>(s: Seq<E>, v: EntryView)
    requires
        !(v.1 is Deleted),
    ensures
        members(s, false, v) == Seq::<E>::empty(),
{
    assert forall|i: int| 0 <= i < s.len() implies !(#[trigger] has_view::<E>(false, v)(s[i])) by {}
    s.lemma_all_neg_filter_empty(has_view(false, v));
}

/// The run of key `k` from `j` on holds no tombstone when `s[j..b)` holds none
/// and the key changes at `b`.
proof fn lemma_no_run_tombstone<E: SortableEntry>(s: Seq<E>, j: int, b: int, k: KeyView)
    requires
        0 <= j <= b <= s.len(),
        forall|m: int| j <= m < b ==> !(#[trigger] s[m].category_view() is Deleted),
        b == s.len() || (b > 0 && s[b - 1].key_view() != s[b].key_view()),
        j == b ==> (b == s.len() || s[b].key_view() != k),
    ensures
        !run_has_tombstone(s.skip(j), k),
    decreases b - j,
{
    assert(j < s.len() ==> s.skip(j)[0] == s[j]);
    assert(j < s.len() ==> s.skip(j).drop_first() =~= s.skip(j + 1));
    if j < b && s[j].key_view() == k {
        lemma_no_run_tombstone(s, j + 1, b, k);
    }
}

/// The run of key `k` from `j` reaches a tombstone at `del`.
proof fn lemma_run_reaches_tombstone<E: SortableEntry>(s: Seq<E>, j: int, del: int, k: KeyView)
    requires
        0 <= j <= del < s.len(),
        forall|m: int| j <= m <= del ==> (#[trigger] s[m]).key_view() == k,
        s[del].category_view() is Deleted,
    ensures
        run_has_tombstone(s.skip(j), k),
    decreases del - j,
{
    assert(s.skip(j)[0] == s[j]);
    assert(s.skip(j).drop_first() =~= s.skip(j + 1));
    if j < del {
        lemma_run_reaches_tombstone(s, j + 1, del, k);
    }
}

/// Entries of `s[a..b)` survive `prune_runs` when that range holds no tombstone
/// and the key changes at `b`.
pub proof fn lemma_prune_untouched<E: SortableEntry>(s: Seq<E>, a: int, b: int)
    requires
        0 <= a <= b <= s.len(),
        forall|m: int| a <= m < b ==> !(#[trigger] s[m].category_view() is Deleted),
        b == s.len() || (b > 0 && s[b - 1].key_view() != s[b].key_view()),
    ensures
        prune_runs(s.skip(a)) == s.subrange(a, b) + prune_runs(s.skip(b)),
    decreases b - a,
{
    if a < b {
        lemma_prune_untouched(s, a + 1, b);
        lemma_no_run_tombstone(s, a + 1, b, s[a].key_view());
        assert(s.skip(a)[0] == s[a]);
        assert(s.skip(a).drop_first() =~= s.skip(a + 1));
        assert(seq![s[a]] + s.subrange(a + 1, b) =~= s.subrange(a, b));
    } else {
        assert(s.subrange(a, b) =~= Seq::<E>::empty());
        assert(Seq::<E>::empty() + prune_runs(s.skip(b)) =~= prune_runs(s.skip(b)));
    }
}

/// Of a run `s[gs..=del]` of one key ending in the tombstone `del`, followed up to
/// the next change of key at `i` by entries that are no tombstones,
/// `prune_runs` keeps the tombstone and what follows it.
pub proof fn lemma_prune_group<E: SortableEntry>(s: Seq<E>, gs: int, del: int, i: int)
    requires
        0 <= gs <= del < i <= s.len(),
        forall|m: int| gs <= m <= del ==> (#[trigger] s[m]).key_view() == s[del].key_view(),
        s[del].category_view() is Deleted,
        forall|m: int| del < m < i ==> !(#[trigger] s[m].category_view() is Deleted),
        i == s.len() || s[i - 1].key_view() != s[i].key_view(),
    ensures
        prune_runs(s.skip(gs)) == s.subrange(del, i) + prune_runs(s.skip(i)),
    decreases del - gs,
{
    assert(s.skip(gs)[0] == s[gs]);
    assert(s.skip(gs).drop_first() =~= s.skip(gs + 1));
    if gs < del {
        lemma_prune_group(s, gs + 1, del, i);
        lemma_run_reaches_tombstone(s, gs + 1, del, s[del].key_view());
    } else {
        lemma_prune_untouched(s, del + 1, i);
        lemma_no_run_tombstone(s, del + 1, i, s[del].key_view());
        assert(seq![s[del]] + s.subrange(del + 1, i) =~= s.subrange(del, i));
    }
}

/// The live entries of `g` hold a tombstone exactly when `g` does, and then only
/// as their first entry.
pub proof fn lemma_live_entries_tombstone<E: SortableEntry>(g: Seq<E>)
    ensures
        has_tombstone(live_entries(g)) == has_tombstone(g),
        forall|i: int|
            0 < i < live_entries(g).len() ==> !(#[trigger] live_entries(g)[i].category_view() is Deleted),
    decreases g.len(),
{
    if g.len() > 0 {
        let t = g.drop_first();
        assert(g =~= seq![g[0]] + t);
        lemma_has_tombstone_prepend(g[0], t);
        if has_tombstone(t) {
            lemma_live_entries_tombstone(t);
        } else {
            assert forall|i: int| 0 < i < g.len() implies !(#[trigger] g[i].category_view() is Deleted) by {
                assert(g[i] == t[i - 1]);
                if t[i - 1].category_view() is Deleted {
                    assert(has_tombstone(t));
                }
            }
        }
    }
}

/// On input sorted by key, pruning leaves a key a tombstone exactly when the
/// key had one, and a tombstone only as the first entry of its key: at most one
/// per key.
pub proof fn law_pruned_tombstones<E: SortableEntry>(s: Seq<E>)
    requires
        sorted_by(s, false),
    ensures
        forall|k: KeyView| #[trigger]
            has_tombstone(key_group(prune_runs(s), k)) == has_tombstone(key_group(s, k)),
        forall|k: KeyView, i: int|
            0 < i < key_group(prune_runs(s), k).len() ==> !(#[trigger] key_group(
                prune_runs(s),
                k,
            )[i].category_view() is Deleted),
{
    lemma_prune_runs_groups(s);
    assert forall|k: KeyView| #[trigger]
        has_tombstone(key_group(prune_runs(s), k)) == has_tombstone(key_group(s, k)) by {
        lemma_live_entries_tombstone(key_group(s, k));
    }
    assert forall|k: KeyView, i: int| 0 < i < key_group(prune_runs(s), k).len() implies !(
    #[trigger] key_group(prune_runs(s), k)[i].category_view() is Deleted) by {
        lemma_live_entries_tombstone(key_group(s, k));
    }
}

/// A sequence holds a tombstone exactly when its entries of category `Deleted`
/// are not none.
pub proof fn lemma_has_tombstone_category<E: SortableEntry>(g: Seq<E>)
    ensures
        has_tombstone(g) == (category_group(g, CategoryView::Deleted).len() > 0),
{
    let p = has_category::<E>(CategoryView::Deleted);
    if has_tombstone(g) {
        let i = choose|i: int| 0 <= i < g.len() && (#[trigger] g[i].category_view() is Deleted);
        g.lemma_filter_contains(p, i);
    } else if category_group(g, CategoryView::Deleted).len() > 0 {
        let f = g.filter(p);
        g.lemma_filter_pred(p, 0);
        assert(f.contains(f[0]));
        g.lemma_filter_contains_rev(p, f[0]);
        let j = choose|j: int| 0 <= j < g.len() && g[j] == f[0];
        assert(g[j].category_view() is Deleted);
    }
}

} // verus!
