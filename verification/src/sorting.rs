//! Sorting by position.

use crate::event::YCoordinate;
use itertools::Itertools;
use vstd::prelude::*;

verus! {

/// Whether no entry comes after one at a later position.
pub open spec fn in_order<V>(s: Seq<(YCoordinate, V)>) -> bool {
    forall|i: int, j: int| 0 <= i < j < s.len() ==> (#[trigger] s[i]).0@ <= (#[trigger] s[j]).0@
}

/// The entries at a position, in the order in which they stand.
pub open spec fn entries_at<V>(s: Seq<(YCoordinate, V)>, y: u64) -> Seq<(YCoordinate, V)>
    decreases s.len(),
{
    if s.len() == 0 {
        s
    } else if s.last().0@ == y {
        entries_at(s.drop_last(), y).push(s.last())
    } else {
        entries_at(s.drop_last(), y)
    }
}

/// Sorted entries with one more, behind those that are not at a later position.
pub open spec fn inserted<V>(s: Seq<(YCoordinate, V)>, entry: (YCoordinate, V)) -> Seq<
    (YCoordinate, V),
>
    decreases s.len(),
{
    if s.len() == 0 || s.last().0@ <= entry.0@ {
        s.push(entry)
    } else {
        inserted(s.drop_last(), entry).push(s.last())
    }
}

/// The entries sorted by position. Those at the same position keep their order.
pub open spec fn sorted<V>(s: Seq<(YCoordinate, V)>) -> Seq<(YCoordinate, V)>
    decreases s.len(),
{
    if s.len() == 0 {
        s
    } else {
        inserted(sorted(s.drop_last()), s.last())
    }
}

/// Inserting keeps the order, and adds the entry behind the others at its position.
proof fn lemma_inserted<V>(s: Seq<(YCoordinate, V)>, entry: (YCoordinate, V))
    requires
        in_order(s),
    ensures
        in_order(inserted(s, entry)),
        inserted(s, entry).len() == s.len() + 1,
        forall|i: int|
            0 <= i <= s.len() ==> (#[trigger] inserted(s, entry)[i]).0@ <= entry.0@ || (s.len() > 0
                && inserted(s, entry)[i].0@ <= s.last().0@),
        forall|y: u64|
            #![trigger entries_at(inserted(s, entry), y)]
            entries_at(inserted(s, entry), y) == if entry.0@ == y {
                entries_at(s, y).push(entry)
            } else {
                entries_at(s, y)
            },
    decreases s.len(),
{
    let r = inserted(s, entry);
    if s.len() == 0 || s.last().0@ <= entry.0@ {
        assert(r.drop_last() =~= s);
    } else {
        let front = s.drop_last();
        lemma_inserted(front, entry);
        assert(r.drop_last() =~= inserted(front, entry));
        assert forall|i: int, j: int| 0 <= i < j < r.len() implies (#[trigger] r[i]).0@ <= (
        #[trigger] r[j]).0@ by {
            if j == r.len() - 1 {
                if front.len() > 0 {
                    assert(s[front.len() - 1].0@ <= s[s.len() - 1].0@);
                }
                assert(r[i] == inserted(front, entry)[i]);
            } else {
                assert(inserted(front, entry)[i].0@ <= inserted(front, entry)[j].0@);
            }
        }
        assert forall|y: u64|
            #![trigger entries_at(r, y)]
            entries_at(r, y) == if entry.0@ == y {
                entries_at(s, y).push(entry)
            } else {
                entries_at(s, y)
            } by {
            assert(entries_at(r.drop_last(), y) == if entry.0@ == y {
                entries_at(front, y).push(entry)
            } else {
                entries_at(front, y)
            });
        }
    }
}

/// Sorting puts the entries in order and keeps those at each position as they were.
pub proof fn lemma_sorted<V>(s: Seq<(YCoordinate, V)>)
    ensures
        in_order(sorted(s)),
        sorted(s).len() == s.len(),
        forall|y: u64| #[trigger] entries_at(sorted(s), y) == entries_at(s, y),
    decreases s.len(),
{
    if s.len() > 0 {
        lemma_sorted(s.drop_last());
        lemma_inserted(sorted(s.drop_last()), s.last());
        assert forall|y: u64| #[trigger] entries_at(sorted(s), y) == entries_at(s, y) by {
            assert(entries_at(sorted(s.drop_last()), y) == entries_at(s.drop_last(), y));
        }
    }
}

/// Where there are entries at a position, one of all entries is at that position.
proof fn lemma_entry_at<V>(s: Seq<(YCoordinate, V)>, y: u64)
    requires
        entries_at(s, y).len() > 0,
    ensures
        exists|i: int| 0 <= i < s.len() && (#[trigger] s[i]).0@ == y,
    decreases s.len(),
{
    if s.last().0@ == y {
        assert(s[s.len() - 1].0@ == y);
    } else {
        lemma_entry_at(s.drop_last(), y);
        let i = choose|i: int| 0 <= i < s.drop_last().len() && (#[trigger] s.drop_last()[i]).0@ == y;
        assert(s[i].0@ == y);
    }
}

/// The order and the entries at each position determine a sequence.
proof fn lemma_determined<V>(a: Seq<(YCoordinate, V)>, b: Seq<(YCoordinate, V)>)
    requires
        in_order(a),
        in_order(b),
        forall|y: u64| #[trigger] entries_at(a, y) == entries_at(b, y),
    ensures
        a == b,
    decreases a.len(),
{
    if a.len() == 0 {
        if b.len() > 0 {
            assert(entries_at(a, b.last().0@).len() == 0);
            assert(entries_at(b, b.last().0@).len() > 0);
        }
        assert(a =~= b);
    } else {
        let y = a.last().0@;
        assert(entries_at(a, y).len() > 0);
        lemma_entry_at(b, y);
        let z = b.last().0@;
        assert(entries_at(a, z) == entries_at(b, z));
        lemma_entry_at(a, z);
        assert(y == z);
        assert(entries_at(a, y).last() == a.last());
        assert(entries_at(b, y).last() == b.last());
        assert forall|x: u64| #[trigger]
            entries_at(a.drop_last(), x) == entries_at(b.drop_last(), x) by {
            assert(entries_at(a, x) == entries_at(b, x));
            if x == y {
                assert(entries_at(a, x).drop_last() =~= entries_at(a.drop_last(), x));
                assert(entries_at(b, x).drop_last() =~= entries_at(b.drop_last(), x));
            }
        }
        lemma_determined(a.drop_last(), b.drop_last());
        assert(a =~= a.drop_last().push(a.last()));
        assert(b =~= b.drop_last().push(b.last()));
    }
}

/// Sorts by position with `Itertools::sorted_by_key`, keyed by the bit patterns, whose
/// order is that of the positions. What is claimed of that function is that its result
/// is in ascending order of the keys, and that it neither loses nor adds entries nor
/// reorders those with equal keys.
#[verifier::external_body]
fn sort_by_key<V>(entries: Vec<(YCoordinate, V)>) -> (r: Vec<(YCoordinate, V)>)
    ensures
        in_order(r@),
        forall|y: u64| #[trigger] entries_at(r@, y) == entries_at(entries@, y),
{
    entries.into_iter().sorted_by_key(|entry| entry.0.0.to_bits()).collect()
}

/// Sorts by position. Entries at the same position keep their order.
pub fn sort_by_position<V>(entries: Vec<(YCoordinate, V)>) -> (r: Vec<(YCoordinate, V)>)
    ensures
        r@ == sorted(entries@),
{
    let ghost s = entries@;
    let r = sort_by_key(entries);
    proof {
        lemma_sorted(s);
        assert forall|y: u64| #[trigger] entries_at(r@, y) == entries_at(sorted(s), y) by {
            assert(entries_at(sorted(s), y) == entries_at(s, y));
        }
        lemma_determined(r@, sorted(s));
    }
    r
}

} // verus!
