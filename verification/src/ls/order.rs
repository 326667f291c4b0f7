//! The two orders of a listing: by size, and by name.

use crate::ls::Entry;
use vstd::prelude::*;

verus! {

/// What a listing can be ordered by.
#[derive(Clone, Copy, Debug, PartialEq, Eq, Structural)]
pub enum SortKey {
    /// Ascending length in bytes.
    Size,
    /// Ascending file name, byte by byte.
    Name,
}

/// `a` and `b` agree on their first `k` bytes, and there `a` ends or holds
/// the smaller byte.
pub open spec fn decided_at(a: Seq<u8>, b: Seq<u8>, k: int) -> bool {
    &&& 0 <= k <= a.len()
    &&& k <= b.len()
    &&& a.take(k) == b.take(k)
    &&& (k == a.len() || (k < b.len() && a[k] < b[k]))
}

/// `a` comes no later than `b` in lexicographic order: `a` is a prefix of `b`, or
/// `a` holds the smaller byte at the first position where the two differ.
pub open spec fn bytes_le(a: Seq<u8>, b: Seq<u8>) -> bool {
    exists|k: int| decided_at(a, b, k)
}

/// `a` may stand before `b` in a listing ordered by `key`.
pub open spec fn key_le(key: SortKey, a: Entry, b: Entry) -> bool {
    match key {
        SortKey::Size => a.size <= b.size,
        SortKey::Name => bytes_le(a.name@, b.name@),
    }
}

/// `a` and `b` are equal in what `key` orders by.
pub open spec fn same_key(key: SortKey, a: Entry, b: Entry) -> bool {
    match key {
        SortKey::Size => a.size == b.size,
        SortKey::Name => a.name@ == b.name@,
    }
}

/// Any two entries can be ordered by `key`.
pub proof fn lemma_key_le_total(key: SortKey, a: Entry, b: Entry)
    ensures
        key_le(key, a, b) || key_le(key, b, a),
{
    lemma_bytes_le_walks(a.name@, b.name@);
    lemma_bytes_le_walks(b.name@, a.name@);
    lemma_walk_total(a.name@, b.name@, 0);
}

/// The order by `key` is transitive.
pub proof fn lemma_key_le_trans(key: SortKey, a: Entry, b: Entry, c: Entry)
    requires
        key_le(key, a, b),
        key_le(key, b, c),
    ensures
        key_le(key, a, c),
{
    if key == SortKey::Name {
        lemma_bytes_le_walks(a.name@, b.name@);
        lemma_bytes_le_walks(b.name@, c.name@);
        lemma_bytes_le_walks(a.name@, c.name@);
        lemma_walk_trans(a.name@, b.name@, c.name@, 0);
    }
}

/// Two entries are equal in `key` exactly when each may stand before the other.
pub proof fn lemma_same_key_iff_le_both(key: SortKey, a: Entry, b: Entry)
    ensures
        same_key(key, a, b) <==> key_le(key, a, b) && key_le(key, b, a),
{
    if key == SortKey::Name {
        lemma_bytes_le_walks(a.name@, b.name@);
        lemma_bytes_le_walks(b.name@, a.name@);
        if same_key(key, a, b) {
            lemma_walk_refl(a.name@, 0);
        }
        if key_le(key, a, b) && key_le(key, b, a) {
            lemma_walk_antisym(a.name@, b.name@, 0);
            assert(a.name@.skip(0) =~= a.name@);
            assert(b.name@.skip(0) =~= b.name@);
        }
    }
}

/// Whether `a` comes no later than `b` in lexicographic order.
fn name_le(a: &Vec<u8>, b: &Vec<u8>) -> (r: bool)
    ensures
        r == bytes_le(a@, b@),
{
    proof {
        lemma_bytes_le_walks(a@, b@);
    }
    let mut i: usize = 0;
    while i < a.len() && i < b.len()
        invariant
            0 <= i <= a.len(),
            i <= b.len(),
            bytes_le(a@, b@) == walk_le(a@, b@, i as int),
        decreases a.len() - i,
    {
        if a[i] != b[i] {
            return a[i] < b[i];
        }
        i = i + 1;
    }
    i >= a.len()
}

/// Whether `a` may stand before `b` in a listing ordered by `key`.
pub fn precedes(key: SortKey, a: &Entry, b: &Entry) -> (r: bool)
    ensures
        r == key_le(key, *a, *b),
{
    match key {
        SortKey::Size => a.size <= b.size,
        SortKey::Name => name_le(&a.name, &b.name),
    }
}

/// The comparison as a walk along the two names from position `i`: the first
/// position where one name ends or the bytes differ decides.
spec fn walk_le(a: Seq<u8>, b: Seq<u8>, i: int) -> bool
    decreases a.len() - i,
{
    if i >= a.len() {
        true
    } else if i >= b.len() {
        false
    } else if a[i] != b[i] {
        a[i] < b[i]
    } else {
        walk_le(a, b, i + 1)
    }
}

/// The walk from the start decides as the lexicographic order does.
proof fn lemma_bytes_le_walks(a: Seq<u8>, b: Seq<u8>)
    ensures
        bytes_le(a, b) == walk_le(a, b, 0),
{
    assert(a.take(0) =~= b.take(0));
    lemma_walk_decides(a, b, 0);
}

proof fn lemma_walk_decides(a: Seq<u8>, b: Seq<u8>, i: int)
    requires
        0 <= i <= a.len(),
        i <= b.len(),
        a.take(i) == b.take(i),
    ensures
        walk_le(a, b, i) <==> exists|k: int| i <= k && decided_at(a, b, k),
    decreases a.len() - i,
{
    if i >= a.len() {
        assert(decided_at(a, b, i));
    } else if i >= b.len() {
    } else if a[i] != b[i] {
        if a[i] < b[i] {
            assert(decided_at(a, b, i));
        }
        assert forall|k: int| i < k && decided_at(a, b, k) implies false by {
            assert(a.take(k)[i] == b.take(k)[i]);
        }
    } else {
        assert(a.take(i + 1) =~= a.take(i).push(a[i]));
        assert(b.take(i + 1) =~= b.take(i).push(b[i]));
        lemma_walk_decides(a, b, i + 1);
        assert(!decided_at(a, b, i));
    }
}

proof fn lemma_walk_total(a: Seq<u8>, b: Seq<u8>, i: int)
    requires
        0 <= i,
    ensures
        walk_le(a, b, i) || walk_le(b, a, i),
    decreases a.len() - i,
{
    if i < a.len() && i < b.len() && a[i] == b[i] {
        lemma_walk_total(a, b, i + 1);
    }
}

proof fn lemma_walk_trans(a: Seq<u8>, b: Seq<u8>, c: Seq<u8>, i: int)
    requires
        0 <= i,
        walk_le(a, b, i),
        walk_le(b, c, i),
    ensures
        walk_le(a, c, i),
    decreases a.len() - i,
{
    if i < a.len() && a[i] == b[i] && b[i] == c[i] {
        lemma_walk_trans(a, b, c, i + 1);
    }
}

proof fn lemma_walk_antisym(a: Seq<u8>, b: Seq<u8>, i: int)
    requires
        0 <= i <= a.len(),
        i <= b.len(),
        walk_le(a, b, i),
        walk_le(b, a, i),
    ensures
        a.skip(i) == b.skip(i),
    decreases a.len() - i,
{
    if i < a.len() {
        lemma_walk_antisym(a, b, i + 1);
        assert(a.skip(i) =~= seq![a[i]] + a.skip(i + 1));
        assert(b.skip(i) =~= seq![b[i]] + b.skip(i + 1));
    } else {
        assert(a.skip(i) =~= b.skip(i));
    }
}

proof fn lemma_walk_refl(a: Seq<u8>, i: int)
    requires
        0 <= i,
    ensures
        walk_le(a, a, i),
    decreases a.len() - i,
{
    if i < a.len() {
        lemma_walk_refl(a, i + 1);
    }
}

} // verus!
