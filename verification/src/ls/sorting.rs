//! Sorting a listing: a stable merge sort.

use crate::ls::order::{
    key_le, lemma_key_le_total, lemma_key_le_trans, precedes, same_key, SortKey,
};
use crate::ls::stable::{is_stable_sort, sorted_by, with_key_of};
use crate::ls::Entry;
use std::collections::VecDeque;
use vstd::prelude::*;

verus! {

/// Orders a listing as the two flags ask: by size where `by_size` is set, else
/// by name where `by_name` is set, else not at all. Where both are set, size wins.
pub fn sort_my_files(by_size: bool, by_name: bool, files: &mut Vec<Entry>)
    ensures
        by_size ==> is_stable_sort(SortKey::Size, old(files)@, final(files)@),
        !by_size && by_name ==> is_stable_sort(SortKey::Name, old(files)@, final(files)@),
        !by_size && !by_name ==> final(files)@ == old(files)@,
{
    if by_size {
        sort_by(files, SortKey::Size);
    } else if by_name {
        sort_by(files, SortKey::Name);
    }
}

/// Sorts the entries stably by `key`.
pub fn sort_by(files: &mut Vec<Entry>, key: SortKey)
    ensures
        is_stable_sort(key, old(files)@, final(files)@),
{
    let ghost before = files@;
    let mut run: VecDeque<Entry> = VecDeque::new();
    while files.len() > 0
        invariant
            files@ + run@ == before,
        decreases files.len(),
    {
        let e = files.pop().unwrap();
        run.push_front(e);
    }
    let mut sorted = merge_sort(key, run);
    let ghost after = sorted@;
    while sorted.len() > 0
        invariant
            files@ + sorted@ == after,
        decreases sorted.len(),
    {
        let e = sorted.pop_front().unwrap();
        files.push(e);
    }
}

/// Sorts a run stably by `key`.
fn merge_sort(key: SortKey, run: VecDeque<Entry>) -> (out: VecDeque<Entry>)
    ensures
        is_stable_sort(key, run@, out@),
    decreases run.len(),
{
    let n = run.len();
    if n <= 1 {
        proof {
            if n == 1 {
                lemma_key_le_total(key, run@[0], run@[0]);
            }
        }
        return run;
    }
    let ghost whole = run@;
    let mut left = run;
    let right = left.split_off(n / 2);
    let ghost first = left@;
    let ghost second = right@;
    let left_sorted = merge_sort(key, left);
    let right_sorted = merge_sort(key, right);
    let out = merge(key, left_sorted, right_sorted);
    proof {
        // The run is its two halves, one after the other.
        assert(whole =~= first + second);
        vstd::seq_lib::lemma_multiset_commutative(first, second);
    }
    out
}

/// Merges two sorted runs into one, entries of `left` before entries of `right`
/// where the two are equal in `key`.
fn merge(key: SortKey, left: VecDeque<Entry>, right: VecDeque<Entry>) -> (out: VecDeque<Entry>)
    requires
        sorted_by(key, left@),
        sorted_by(key, right@),
    ensures
        sorted_by(key, out@),
        out@.to_multiset() == left@.to_multiset().add(right@.to_multiset()),
        forall|x: Entry| #[trigger]
            with_key_of(key, out@, x) == with_key_of(key, left@, x) + with_key_of(key, right@, x),
{
    let ghost left0 = left@;
    let ghost right0 = right@;
    let mut left = left;
    let mut right = right;
    let mut out: VecDeque<Entry> = VecDeque::new();
    proof {
        assert(left0.to_multiset().add(right0.to_multiset()).add(out@.to_multiset())
            =~= left0.to_multiset().add(right0.to_multiset())) by {
            out@.to_multiset_ensures();
        }
    }
    while left.len() > 0 || right.len() > 0
        invariant
            sorted_by(key, left@),
            sorted_by(key, right@),
            sorted_by(key, out@),
            forall|i: int, j: int|
                0 <= i < left@.len() && 0 <= j < out@.len() ==> key_le(
                    key,
                    #[trigger] left@[i],
                    #[trigger] out@[j],
                ),
            forall|i: int, j: int|
                0 <= i < right@.len() && 0 <= j < out@.len() ==> key_le(
                    key,
                    #[trigger] right@[i],
                    #[trigger] out@[j],
                ),
            left@.to_multiset().add(right@.to_multiset()).add(out@.to_multiset())
                == left0.to_multiset().add(right0.to_multiset()),
            forall|x: Entry| #[trigger]
                with_key_of(key, left@, x) + with_key_of(key, right@, x) + with_key_of(key, out@, x)
                    == with_key_of(key, left0, x) + with_key_of(key, right0, x),
        decreases left.len() + right.len(),
    {
        let ghost l = left@;
        let ghost r = right@;
        let ghost o = out@;
        let from_right = if left.len() == 0 {
            true
        } else if right.len() == 0 {
            false
        } else {
            precedes(key, &left[left.len() - 1], &right[right.len() - 1])
        };
        if from_right {
            let e = right.pop_back().unwrap();
            out.push_front(e);
            proof {
                lemma_take_last_of_right(key, l, r, o);
            }
        } else {
            let e = left.pop_back().unwrap();
            out.push_front(e);
            proof {
                lemma_take_last_of_left(key, l, r, o);
            }
        }
    }
    proof {
        // Both runs are used up: what the invariant says of all three holds of `out` alone.
        assert(left@ =~= Seq::<Entry>::empty());
        assert(right@ =~= Seq::<Entry>::empty());
        left@.to_multiset_ensures();
        assert forall|x: Entry| #[trigger]
            with_key_of(key, out@, x) == with_key_of(key, left0, x) + with_key_of(
                key,
                right0,
                x,
            ) by {
            assert(with_key_of(key, left@, x) + with_key_of(key, right@, x) + with_key_of(
                key,
                out@,
                x,
            ) =~= with_key_of(key, out@, x));
        }
    }
    out
}

/// One step of the merge that takes the last entry of the right run.
proof fn lemma_take_last_of_right(key: SortKey, l: Seq<Entry>, r: Seq<Entry>, o: Seq<Entry>)
    requires
        r.len() > 0,
        l.len() == 0 || key_le(key, l.last(), r.last()),
        sorted_by(key, l),
        sorted_by(key, r),
        sorted_by(key, o),
        forall|i: int, j: int|
            0 <= i < l.len() && 0 <= j < o.len() ==> key_le(key, #[trigger] l[i], #[trigger] o[j]),
        forall|i: int, j: int|
            0 <= i < r.len() && 0 <= j < o.len() ==> key_le(key, #[trigger] r[i], #[trigger] o[j]),
    ensures
        sorted_by(key, r.drop_last()),
        sorted_by(key, seq![r.last()] + o),
        forall|i: int, j: int|
            0 <= i < l.len() && 0 <= j < o.len() + 1 ==> key_le(
                key,
                #[trigger] l[i],
                #[trigger] (seq![r.last()] + o)[j],
            ),
        forall|i: int, j: int|
            0 <= i < r.len() - 1 && 0 <= j < o.len() + 1 ==> key_le(
                key,
                #[trigger] r.drop_last()[i],
                #[trigger] (seq![r.last()] + o)[j],
            ),
        l.to_multiset().add(r.drop_last().to_multiset()).add((seq![r.last()] + o).to_multiset())
            == l.to_multiset().add(r.to_multiset()).add(o.to_multiset()),
        forall|x: Entry| #[trigger]
            with_key_of(key, l, x) + with_key_of(key, r.drop_last(), x) + with_key_of(
                key,
                seq![r.last()] + o,
                x,
            ) == with_key_of(key, l, x) + with_key_of(key, r, x) + with_key_of(key, o, x),
{
    let e = r.last();
    let t = seq![e] + o;
    assert forall|i: int, j: int| 0 <= i < l.len() && 0 <= j < o.len() + 1 implies key_le(
        key,
        #[trigger] l[i],
        #[trigger] t[j],
    ) by {
        if j == 0 {
            lemma_key_le_trans(key, l[i], l.last(), e);
        }
    }
    lemma_move_last(key, r, o);
    assert(l.to_multiset().add(r.to_multiset()).add(o.to_multiset()) =~= l.to_multiset().add(
        r.to_multiset().add(o.to_multiset()),
    ));
}

/// One step of the merge that takes the last entry of the left run.
proof fn lemma_take_last_of_left(key: SortKey, l: Seq<Entry>, r: Seq<Entry>, o: Seq<Entry>)
    requires
        l.len() > 0,
        r.len() == 0 || !key_le(key, l.last(), r.last()),
        sorted_by(key, l),
        sorted_by(key, r),
        sorted_by(key, o),
        forall|i: int, j: int|
            0 <= i < l.len() && 0 <= j < o.len() ==> key_le(key, #[trigger] l[i], #[trigger] o[j]),
        forall|i: int, j: int|
            0 <= i < r.len() && 0 <= j < o.len() ==> key_le(key, #[trigger] r[i], #[trigger] o[j]),
    ensures
        sorted_by(key, l.drop_last()),
        sorted_by(key, seq![l.last()] + o),
        forall|i: int, j: int|
            0 <= i < l.len() - 1 && 0 <= j < o.len() + 1 ==> key_le(
                key,
                #[trigger] l.drop_last()[i],
                #[trigger] (seq![l.last()] + o)[j],
            ),
        forall|i: int, j: int|
            0 <= i < r.len() && 0 <= j < o.len() + 1 ==> key_le(
                key,
                #[trigger] r[i],
                #[trigger] (seq![l.last()] + o)[j],
            ),
        l.drop_last().to_multiset().add(r.to_multiset()).add((seq![l.last()] + o).to_multiset())
            == l.to_multiset().add(r.to_multiset()).add(o.to_multiset()),
        forall|x: Entry| #[trigger]
            with_key_of(key, l.drop_last(), x) + with_key_of(key, r, x) + with_key_of(
                key,
                seq![l.last()] + o,
                x,
            ) == with_key_of(key, l, x) + with_key_of(key, r, x) + with_key_of(key, o, x),
{
    let e = l.last();
    let t = seq![e] + o;
    assert forall|i: int, j: int| 0 <= i < r.len() && 0 <= j < o.len() + 1 implies key_le(
        key,
        #[trigger] r[i],
        #[trigger] t[j],
    ) by {
        if j == 0 {
            lemma_key_le_total(key, e, r.last());
            lemma_key_le_trans(key, r[i], r.last(), e);
        }
    }
    lemma_move_last(key, l, o);
    assert(l.to_multiset().add(r.to_multiset()).add(o.to_multiset()) =~= l.to_multiset().add(
        o.to_multiset(),
    ).add(r.to_multiset()));
    assert forall|x: Entry| #[trigger]
        with_key_of(key, l.drop_last(), x) + with_key_of(key, r, x) + with_key_of(key, t, x)
            == with_key_of(key, l, x) + with_key_of(key, r, x) + with_key_of(key, o, x) by {
        if same_key(key, e, x) {
            // No entry of `r` is equal to `e` in `key`: all of them stand before it.
            r.lemma_all_neg_filter_empty(|y: Entry| same_key(key, y, x));
        }
    }
}

/// Moving the last entry of `s` to the front of `o` keeps, between the two, the
/// same entries, and the same order among those equal in `key`.
proof fn lemma_move_last(key: SortKey, s: Seq<Entry>, o: Seq<Entry>)
    requires
        s.len() > 0,
    ensures
        s.drop_last().to_multiset().add((seq![s.last()] + o).to_multiset()) == s.to_multiset().add(
            o.to_multiset(),
        ),
        forall|x: Entry| #[trigger]
            with_key_of(key, s, x) == if same_key(key, s.last(), x) {
                with_key_of(key, s.drop_last(), x).push(s.last())
            } else {
                with_key_of(key, s.drop_last(), x)
            },
        forall|x: Entry| #[trigger]
            with_key_of(key, seq![s.last()] + o, x) == if same_key(key, s.last(), x) {
                seq![s.last()] + with_key_of(key, o, x)
            } else {
                with_key_of(key, o, x)
            },
{
    let e = s.last();
    let rest = s.drop_last();
    assert(s =~= rest.push(e));
    assert(seq![e] + o =~= o.insert(0, e));
    vstd::seq_lib::to_multiset_build(rest, e);
    vstd::seq_lib::to_multiset_insert(o, 0, e);
    assert forall|x: Entry| #[trigger]
        with_key_of(key, s, x) == if same_key(key, e, x) {
            with_key_of(key, rest, x).push(e)
        } else {
            with_key_of(key, rest, x)
        } by {
        rest.lemma_filter_push(e, |y: Entry| same_key(key, y, x));
    }
    assert forall|x: Entry| #[trigger]
        with_key_of(key, seq![e] + o, x) == if same_key(key, e, x) {
            seq![e] + with_key_of(key, o, x)
        } else {
            with_key_of(key, o, x)
        } by {
        o.lemma_filter_prepend(e, |y: Entry| same_key(key, y, x));
    }
}

} // verus!
