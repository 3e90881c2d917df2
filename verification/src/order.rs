//! The total order in which entries are laid out in a sorted table: by key
//! (hash first, then the key bytes), then by the category of the value.
use std::cmp::Ordering;
use vstd::prelude::*;

verus! {

/// Abstract form of an entry key: its 64-bit hash and its bytes.
pub type KeyView = (u64, Seq<u8>);

/// Abstract form of a value's category, see `ValueCategory`.
pub enum CategoryView {
    Deleted,
    ByteContent(Seq<u8>),
    Blob(u32),
}

/// Abstract form of an entry as far as ordering is concerned.
pub type EntryView = (KeyView, CategoryView);

/// Lexicographic strict order on byte strings (the order of Rust's `[u8]`).
pub open spec fn bytes_lt(a: Seq<u8>, b: Seq<u8>) -> bool
    decreases a.len(),
{
    if a.len() == 0 {
        b.len() > 0
    } else if b.len() == 0 {
        false
    } else if a[0] != b[0] {
        a[0] < b[0]
    } else {
        bytes_lt(a.drop_first(), b.drop_first())
    }
}

/// Strict order on keys: by hash, then by bytes.
pub open spec fn key_lt(a: KeyView, b: KeyView) -> bool {
    a.0 < b.0 || (a.0 == b.0 && bytes_lt(a.1, b.1))
}

/// Rank of a category's variant: deleted entries come first, blobs last.
pub open spec fn category_rank(c: CategoryView) -> int {
    match c {
        CategoryView::Deleted => 0,
        CategoryView::ByteContent(_) => 1,
        CategoryView::Blob(_) => 2,
    }
}

/// Strict order on categories: `Deleted < ByteContent(by bytes) < Blob(by number)`.
pub open spec fn category_lt(a: CategoryView, b: CategoryView) -> bool {
    category_rank(a) < category_rank(b) || match (a, b) {
        (CategoryView::ByteContent(x), CategoryView::ByteContent(y)) => bytes_lt(x, y),
        (CategoryView::Blob(x), CategoryView::Blob(y)) => x < y,
        _ => false,
    }
}

/// Strict order on entries: by key, then by category.
pub open spec fn view_lt(a: EntryView, b: EntryView) -> bool {
    key_lt(a.0, b.0) || (a.0 == b.0 && category_lt(a.1, b.1))
}

/// The `Ordering` that a three-way comparison of `a` with `b` gives.
pub open spec fn view_order(a: EntryView, b: EntryView) -> Ordering {
    if view_lt(a, b) {
        Ordering::Less
    } else if a == b {
        Ordering::Equal
    } else {
        Ordering::Greater
    }
}

/// The `Ordering` that comparing the keys `a` and `b` gives.
pub open spec fn key_order(a: KeyView, b: KeyView) -> Ordering {
    if key_lt(a, b) {
        Ordering::Less
    } else if a == b {
        Ordering::Equal
    } else {
        Ordering::Greater
    }
}

/// The `Ordering` that comparing the categories `a` and `b` gives.
pub open spec fn category_order(a: CategoryView, b: CategoryView) -> Ordering {
    if category_lt(a, b) {
        Ordering::Less
    } else if a == b {
        Ordering::Equal
    } else {
        Ordering::Greater
    }
}

pub proof fn lemma_bytes_lt_irreflexive(a: Seq<u8>)
    ensures
        !bytes_lt(a, a),
    decreases a.len(),
{
    if a.len() > 0 {
        lemma_bytes_lt_irreflexive(a.drop_first());
    }
}

pub proof fn lemma_bytes_lt_total(a: Seq<u8>, b: Seq<u8>)
    ensures
        a == b || bytes_lt(a, b) || bytes_lt(b, a),
        !(bytes_lt(a, b) && bytes_lt(b, a)),
    decreases a.len(),
{
    if a.len() > 0 && b.len() > 0 && a[0] == b[0] {
        lemma_bytes_lt_total(a.drop_first(), b.drop_first());
        if a.drop_first() == b.drop_first() {
            assert(a =~= seq![a[0]] + a.drop_first());
            assert(b =~= seq![b[0]] + b.drop_first());
        }
    } else if a.len() == 0 && b.len() == 0 {
        assert(a =~= b);
    }
}

pub proof fn lemma_bytes_lt_transitive(a: Seq<u8>, b: Seq<u8>, c: Seq<u8>)
    requires
        bytes_lt(a, b),
        bytes_lt(b, c),
    ensures
        bytes_lt(a, c),
    decreases a.len(),
{
    if a.len() > 0 && b.len() > 0 && c.len() > 0 && a[0] == b[0] && b[0] == c[0] {
        lemma_bytes_lt_transitive(a.drop_first(), b.drop_first(), c.drop_first());
    }
}

/// `bytes_lt` only depends on what follows a common prefix.
pub proof fn lemma_bytes_lt_skip(a: Seq<u8>, b: Seq<u8>, i: int)
    requires
        0 <= i <= a.len(),
        i <= b.len(),
        a.take(i) == b.take(i),
    ensures
        bytes_lt(a, b) == bytes_lt(a.skip(i), b.skip(i)),
        (a == b) == (a.skip(i) == b.skip(i)),
    decreases i,
{
    if i == 0 {
        assert(a.skip(0) =~= a);
        assert(b.skip(0) =~= b);
    } else {
        assert(a[0] == a.take(i)[0]);
        assert(b[0] == b.take(i)[0]);
        assert(a.drop_first().take(i - 1) =~= b.drop_first().take(i - 1)) by {
            assert forall|j: int| 0 <= j < i - 1 implies a.drop_first()[j] == b.drop_first()[j] by {
                assert(a.take(i)[j + 1] == a[j + 1]);
                assert(b.take(i)[j + 1] == b[j + 1]);
                assert(a.take(i)[j + 1] == b.take(i)[j + 1]);
            }
        }
        lemma_bytes_lt_skip(a.drop_first(), b.drop_first(), i - 1);
        assert(a.drop_first().skip(i - 1) =~= a.skip(i));
        assert(b.drop_first().skip(i - 1) =~= b.skip(i));
        if a.drop_first() == b.drop_first() {
            assert(a =~= seq![a[0]] + a.drop_first());
            assert(b =~= seq![b[0]] + b.drop_first());
        }
    }
}

/// `a` is below `b` at the first position where they differ, or is a proper
/// prefix of `b`.
pub open spec fn first_difference_below(a: Seq<u8>, b: Seq<u8>) -> bool {
    ||| exists|i: int|
        0 <= i < a.len() && i < b.len() && #[trigger] a.take(i) == b.take(i) && a[i] < b[i]
    ||| a.len() < b.len() && b.take(a.len() as int) == a
}

proof fn lemma_bytes_lt_witness(a: Seq<u8>, b: Seq<u8>)
    requires
        bytes_lt(a, b),
    ensures
        first_difference_below(a, b),
    decreases a.len(),
{
    if a.len() == 0 {
        assert(b.take(0) =~= a);
    } else if a[0] != b[0] {
        assert(a.take(0) =~= b.take(0));
    } else {
        let a2 = a.drop_first();
        let b2 = b.drop_first();
        lemma_bytes_lt_witness(a2, b2);
        if exists|i: int|
            0 <= i < a2.len() && i < b2.len() && #[trigger] a2.take(i) == b2.take(i) && a2[i] < b2[i] {
            let i = choose|i: int|
                0 <= i < a2.len() && i < b2.len() && #[trigger] a2.take(i) == b2.take(i) && a2[i] < b2[i];
            assert(a.take(i + 1) =~= b.take(i + 1)) by {
                assert forall|j: int| 0 <= j < i + 1 implies #[trigger] a.take(i + 1)[j] == b.take(i + 1)[j] by {
                    if j > 0 {
                        assert(a2.take(i)[j - 1] == b2.take(i)[j - 1]);
                    }
                }
            }
            assert(a[i + 1] == a2[i] && b[i + 1] == b2[i]);
        } else {
            assert(b.take(a.len() as int) =~= a) by {
                assert forall|j: int| 0 <= j < a.len() implies #[trigger] b.take(a.len() as int)[j] == a[j] by {
                    if j > 0 {
                        assert(b2.take(a2.len() as int)[j - 1] == a2[j - 1]);
                    }
                }
            }
        }
    }
}

/// The byte order is the lexicographic one: `a` is below `b` exactly when, at
/// the first position where they differ, `a` holds the smaller byte, or `a` is a
/// proper prefix of `b`.
pub proof fn law_bytes_lt_lexicographic(a: Seq<u8>, b: Seq<u8>)
    ensures
        bytes_lt(a, b) == first_difference_below(a, b),
{
    if exists|i: int|
        0 <= i < a.len() && i < b.len() && #[trigger] a.take(i) == b.take(i) && a[i] < b[i] {
        let i = choose|i: int|
            0 <= i < a.len() && i < b.len() && #[trigger] a.take(i) == b.take(i) && a[i] < b[i];
        lemma_bytes_lt_skip(a, b, i);
        assert(a.skip(i)[0] == a[i] && b.skip(i)[0] == b[i]);
    } else if a.len() < b.len() && b.take(a.len() as int) == a {
        assert(a.take(a.len() as int) =~= a);
        lemma_bytes_lt_skip(a, b, a.len() as int);
        assert(a.skip(a.len() as int).len() == 0);
    } else if bytes_lt(a, b) {
        lemma_bytes_lt_witness(a, b);
    }
}

/// Keys compare by hash first; only keys of equal hash compare by their bytes,
/// lexicographically.
pub proof fn law_key_order(a: KeyView, b: KeyView)
    ensures
        a.0 < b.0 ==> key_order(a, b) == Ordering::Less,
        a.0 > b.0 ==> key_order(a, b) == Ordering::Greater,
        a.0 == b.0 ==> key_order(a, b) == (if a.1 == b.1 {
            Ordering::Equal
        } else if first_difference_below(a.1, b.1) {
            Ordering::Less
        } else {
            Ordering::Greater
        }),
{
    law_bytes_lt_lexicographic(a.1, b.1);
    lemma_bytes_lt_irreflexive(a.1);
}

/// The strict order on entries is irreflexive, transitive and total.
pub proof fn lemma_view_order(a: EntryView, b: EntryView, c: EntryView)
    ensures
        !view_lt(a, a),
        view_lt(a, b) && view_lt(b, c) ==> view_lt(a, c),
        a == b || view_lt(a, b) || view_lt(b, a),
        !(view_lt(a, b) && view_lt(b, a)),
{
    lemma_bytes_lt_irreflexive(a.0.1);
    lemma_bytes_lt_total(a.0.1, b.0.1);
    lemma_bytes_lt_total(b.0.1, c.0.1);
    lemma_bytes_lt_total(a.0.1, c.0.1);
    if bytes_lt(a.0.1, b.0.1) && bytes_lt(b.0.1, c.0.1) {
        lemma_bytes_lt_transitive(a.0.1, b.0.1, c.0.1);
    }
    match (a.1, b.1, c.1) {
        (CategoryView::ByteContent(x), CategoryView::ByteContent(y), CategoryView::ByteContent(z)) => {
            lemma_bytes_lt_irreflexive(x);
            lemma_bytes_lt_total(x, y);
            if bytes_lt(x, y) && bytes_lt(y, z) {
                lemma_bytes_lt_transitive(x, y, z);
            }
        },
        _ => {},
    }
    match (a.1, b.1) {
        (CategoryView::ByteContent(x), CategoryView::ByteContent(y)) => {
            lemma_bytes_lt_irreflexive(x);
            lemma_bytes_lt_total(x, y);
        },
        _ => {},
    }
    match a.1 {
        CategoryView::ByteContent(x) => {
            lemma_bytes_lt_irreflexive(x);
        },
        _ => {},
    }
}

/// Lexicographic "less than" on two byte strings.
pub fn bytes_less(a: &[u8], b: &[u8]) -> (r: bool)
    ensures
        r == bytes_lt(a@, b@),
{
    let mut i: usize = 0;
    while i < a.len() && i < b.len()
        invariant
            i <= a@.len(),
            i <= b@.len(),
            a@.take(i as int) == b@.take(i as int),
        decreases a@.len() - i,
    {
        if a[i] != b[i] {
            proof {
                lemma_bytes_lt_skip(a@, b@, i as int);
                assert(a@.skip(i as int)[0] == a@[i as int]);
                assert(b@.skip(i as int)[0] == b@[i as int]);
            }
            return a[i] < b[i];
        }
        proof {
            assert(a@.take(i + 1) =~= a@.take(i as int).push(a@[i as int]));
            assert(b@.take(i + 1) =~= b@.take(i as int).push(b@[i as int]));
        }
        i = i + 1;
    }
    proof {
        lemma_bytes_lt_skip(a@, b@, i as int);
    }
    i == a.len() && i < b.len()
}

/// Equality of two byte strings.
pub fn bytes_equal(a: &[u8], b: &[u8]) -> (r: bool)
    ensures
        r == (a@ == b@),
{
    if a.len() != b.len() {
        return false;
    }
    let mut i: usize = 0;
    while i < a.len()
        invariant
            i <= a@.len(),
            a@.len() == b@.len(),
            a@.take(i as int) == b@.take(i as int),
        decreases a@.len() - i,
    {
        if a[i] != b[i] {
            assert(a@[i as int] != b@[i as int]);
            return false;
        }
        proof {
            assert(a@.take(i + 1) =~= a@.take(i as int).push(a@[i as int]));
            assert(b@.take(i + 1) =~= b@.take(i as int).push(b@[i as int]));
        }
        i = i + 1;
    }
    assert(a@ =~= a@.take(i as int));
    assert(b@ =~= b@.take(i as int));
    true
}

/// Three-way lexicographic comparison of two byte strings.
pub fn compare_bytes(a: &[u8], b: &[u8]) -> (r: Ordering)
    ensures
        r == (if bytes_lt(a@, b@) {
            Ordering::Less
        } else if a@ == b@ {
            Ordering::Equal
        } else {
            Ordering::Greater
        }),
{
    if bytes_less(a, b) {
        Ordering::Less
    } else if bytes_equal(a, b) {
        Ordering::Equal
    } else {
        Ordering::Greater
    }
}

/// Classification of a value for sorting purposes.
///
/// Both the values of the write path and those of the read/merge path use
/// this classification, so that both are ordered alike:
/// `Deleted < ByteContent(ordered by bytes) < Blob(ordered by sequence number)`.
/// The order of bytes and blobs is irrelevant, it just needs to be stable, but
/// deleted entries need to stay first.
#[derive(Clone, Copy, Debug, PartialEq, Eq, PartialOrd, Ord)]
pub enum ValueCategory<'a> {
    Deleted,
    ByteContent(&'a [u8]),
    Blob(u32),
}

impl<'a> View for ValueCategory<'a> {
    type V = CategoryView;

    open spec fn view(&self) -> CategoryView {
        match self {
            ValueCategory::Deleted => CategoryView::Deleted,
            ValueCategory::ByteContent(b) => CategoryView::ByteContent(b@),
            ValueCategory::Blob(n) => CategoryView::Blob(*n),
        }
    }
}

impl<'a> ValueCategory<'a> {
    /// Three-way comparison in the order of the categories.
    pub fn compare(&self, other: &ValueCategory) -> (r: Ordering)
        ensures
            r == category_order(self@, other@),
    {
        match (self, other) {
            (ValueCategory::Deleted, ValueCategory::Deleted) => Ordering::Equal,
            (ValueCategory::Deleted, _) => Ordering::Less,
            (_, ValueCategory::Deleted) => Ordering::Greater,
            (ValueCategory::ByteContent(a), ValueCategory::ByteContent(b)) => compare_bytes(a, b),
            (ValueCategory::ByteContent(_), ValueCategory::Blob(_)) => Ordering::Less,
            (ValueCategory::Blob(_), ValueCategory::ByteContent(_)) => Ordering::Greater,
            (ValueCategory::Blob(a), ValueCategory::Blob(b)) => {
                if *a < *b {
                    Ordering::Less
                } else if *a == *b {
                    Ordering::Equal
                } else {
                    Ordering::Greater
                }
            },
        }
    }
}

/// Three-way comparison of two keys given as hash and bytes.
pub fn compare_keys(hash_a: u64, bytes_a: &[u8], hash_b: u64, bytes_b: &[u8]) -> (r: Ordering)
    ensures
        r == key_order((hash_a, bytes_a@), (hash_b, bytes_b@)),
{
    if hash_a < hash_b {
        Ordering::Less
    } else if hash_a > hash_b {
        Ordering::Greater
    } else {
        compare_bytes(bytes_a, bytes_b)
    }
}

/// Combines a comparison of keys with one of categories, as `then_with` does.
pub fn then_compare(key_cmp: Ordering, category_cmp: Ordering) -> (r: Ordering)
    ensures
        r == (if key_cmp == Ordering::Equal { category_cmp } else { key_cmp }),
{
    match key_cmp {
        Ordering::Equal => category_cmp,
        other => other,
    }
}

/// The three-way order on entries is the key order refined by the category order.
pub proof fn lemma_view_order_composed(a: EntryView, b: EntryView)
    ensures
        view_order(a, b) == (if key_order(a.0, b.0) == Ordering::Equal {
            category_order(a.1, b.1)
        } else {
            key_order(a.0, b.0)
        }),
{
    lemma_view_order(a, b, b);
    lemma_bytes_lt_irreflexive(a.0.1);
    lemma_bytes_lt_total(a.0.1, b.0.1);
    match (a.1, b.1) {
        (CategoryView::ByteContent(x), CategoryView::ByteContent(y)) => {
            lemma_bytes_lt_irreflexive(x);
            lemma_bytes_lt_total(x, y);
        },
        _ => {},
    }
}

} // verus!
