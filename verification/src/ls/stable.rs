//! What it means to sort a listing stably, and that this fixes the result.

use crate::ls::order::{key_le, lemma_same_key_iff_le_both, same_key, SortKey};
use crate::ls::Entry;
use vstd::prelude::*;

verus! {

/// Every entry is followed only by entries that may stand after it.
pub open spec fn sorted_by(key: SortKey, s: Seq<Entry>) -> bool {
    forall|i: int, j: int| 0 <= i <= j < s.len() ==> key_le(key, #[trigger] s[i], #[trigger] s[j])
}

/// The entries of `s` that are equal to `x` in `key`, in the order they have in `s`.
pub open spec fn with_key_of(key: SortKey, s: Seq<Entry>, x: Entry) -> Seq<Entry> {
    s.filter(|e: Entry| same_key(key, e, x))
}

/// `after` is `before` sorted stably by `key`: it is in ascending order, it holds
/// the same entries, and entries equal in `key` stand in the order they had.
pub open spec fn is_stable_sort(key: SortKey, before: Seq<Entry>, after: Seq<Entry>) -> bool {
    &&& sorted_by(key, after)
    &&& after.to_multiset() == before.to_multiset()
    &&& forall|x: Entry| #[trigger] with_key_of(key, after, x) == with_key_of(key, before, x)
}

/// A stable sort has one result: two sequences that are both `before`, sorted
/// stably by `key`, are the same sequence.
pub proof fn lemma_stable_sort_is_unique(
    key: SortKey,
    before: Seq<Entry>,
    a: Seq<Entry>,
    b: Seq<Entry>,
)
    requires
        is_stable_sort(key, before, a),
        is_stable_sort(key, before, b),
    ensures
        a == b,
{
    lemma_sorted_with_same_keys_are_equal(key, a, b);
}

proof fn lemma_sorted_with_same_keys_are_equal(key: SortKey, a: Seq<Entry>, b: Seq<Entry>)
    requires
        sorted_by(key, a),
        sorted_by(key, b),
        forall|x: Entry| #[trigger] with_key_of(key, a, x) == with_key_of(key, b, x),
    ensures
        a == b,
    decreases a.len() + b.len(),
{
    if a.len() == 0 || b.len() == 0 {
        // Were one of them not empty, its first entry would be missing in the other.
        if a.len() > 0 {
            lemma_first_with_key(key, a, a[0]);
            assert(with_key_of(key, b, a[0]) == with_key_of(key, a, a[0]));
        }
        if b.len() > 0 {
            lemma_first_with_key(key, b, b[0]);
            assert(with_key_of(key, a, b[0]) == with_key_of(key, b, b[0]));
        }
    } else {
        // The two first entries are equal in `key`, and each is the first with that key.
        let x = a[0];
        lemma_first_is_least(key, a, b);
        lemma_first_is_least(key, b, a);
        lemma_same_key_iff_le_both(key, b[0], x);
        lemma_first_with_key(key, a, x);
        lemma_first_with_key(key, b, x);
        assert(a[0] == b[0]);
        // What follows them is sorted, with the same entries under each key.
        let ta = a.skip(1);
        let tb = b.skip(1);
        assert forall|z: Entry| #[trigger]
            with_key_of(key, ta, z) == with_key_of(key, tb, z) by {
            if same_key(key, x, z) {
                lemma_first_with_key(key, a, z);
                lemma_first_with_key(key, b, z);
            } else {
                lemma_skip_other_key(key, a, z);
                lemma_skip_other_key(key, b, z);
            }
        }
        lemma_sorted_with_same_keys_are_equal(key, ta, tb);
        assert(a =~= seq![a[0]] + ta);
        assert(b =~= seq![b[0]] + tb);
    }
}

/// The first entry of a sorted sequence may stand before the first entry of
/// any sequence with the same entries under each key.
proof fn lemma_first_is_least(key: SortKey, a: Seq<Entry>, b: Seq<Entry>)
    requires
        a.len() > 0,
        b.len() > 0,
        sorted_by(key, a),
        forall|x: Entry| #[trigger] with_key_of(key, a, x) == with_key_of(key, b, x),
    ensures
        key_le(key, a[0], b[0]),
{
    // `b[0]` is among the entries of `b` with its key, so among those of `a`, so in `a`.
    let y = b[0];
    lemma_first_with_key(key, b, y);
    assert(with_key_of(key, a, y)[0] == y);
    a.lemma_filter_contains_rev(|e: Entry| same_key(key, e, y), y);
}

/// The first entry of a sequence is the first of those equal to it in `key`.
proof fn lemma_first_with_key(key: SortKey, s: Seq<Entry>, x: Entry)
    requires
        s.len() > 0,
        same_key(key, s[0], x),
    ensures
        with_key_of(key, s, x).len() > 0,
        with_key_of(key, s, x)[0] == s[0],
        with_key_of(key, s, x).skip(1) == with_key_of(key, s.skip(1), x),
{
    assert(s =~= seq![s[0]] + s.skip(1));
    s.skip(1).lemma_filter_prepend(s[0], |e: Entry| same_key(key, e, x));
}

/// Dropping a first entry that is not equal to `x` in `key` leaves the entries equal to `x`.
proof fn lemma_skip_other_key(key: SortKey, s: Seq<Entry>, x: Entry)
    requires
        s.len() > 0,
        !same_key(key, s[0], x),
    ensures
        with_key_of(key, s, x) == with_key_of(key, s.skip(1), x),
{
    assert(s =~= seq![s[0]] + s.skip(1));
    s.skip(1).lemma_filter_prepend(s[0], |e: Entry| same_key(key, e, x));
}

} // verus!
