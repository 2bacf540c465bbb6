//! Lists kept by position.

use crate::event::YCoordinate;
#[allow(unused_imports)]
use crate::ordered::placed;
use crate::ordered::OrderKey;
use vstd::prelude::*;

verus! {

/// The list at a position, empty where there is none.
pub open spec fn list_at<E>(lists: Map<u64, Seq<E>>, y: u64) -> Seq<E> {
    if lists.dom().contains(y) {
        lists[y]
    } else {
        Seq::empty()
    }
}

/// The lists after an item has been added at a position.
pub open spec fn added<E>(lists: Map<u64, Seq<E>>, y: u64, item: E) -> Map<u64, Seq<E>> {
    lists.insert(y, list_at(lists, y).push(item))
}

/// The lists of items that were added one after the other.
pub open spec fn grouped<E>(items: Seq<(u64, E)>) -> Map<u64, Seq<E>>
    decreases items.len(),
{
    if items.len() == 0 {
        Map::empty()
    } else {
        added(grouped(items.drop_last()), items.last().0, items.last().1)
    }
}

/// The items that were added at a position, in the order in which they were added.
pub open spec fn items_at<E>(items: Seq<(u64, E)>, y: u64) -> Seq<E>
    decreases items.len(),
{
    if items.len() == 0 {
        Seq::empty()
    } else if items.last().0 == y {
        items_at(items.drop_last(), y).push(items.last().1)
    } else {
        items_at(items.drop_last(), y)
    }
}

/// Grouping neither loses, adds nor reorders: each position holds the items that were
/// added there, in the order in which they were added, and there is a list only where an
/// item was added.
pub proof fn lemma_grouped<E>(items: Seq<(u64, E)>, y: u64)
    ensures
        list_at(grouped(items), y) == items_at(items, y),
        grouped(items).dom().contains(y) <==> exists|i: int|
            0 <= i < items.len() && (#[trigger] items[i]).0 == y,
    decreases items.len(),
{
    if items.len() > 0 {
        let front = items.drop_last();
        lemma_grouped(front, y);
        if grouped(items).dom().contains(y) {
            if items.last().0 == y {
                assert(items[items.len() - 1].0 == y);
            } else {
                let i = choose|i: int| 0 <= i < front.len() && (#[trigger] front[i]).0 == y;
                assert(items[i].0 == y);
            }
        }
        if exists|i: int| 0 <= i < items.len() && (#[trigger] items[i]).0 == y {
            let i = choose|i: int| 0 <= i < items.len() && (#[trigger] items[i]).0 == y;
            if i < front.len() {
                assert(front[i].0 == y);
            }
        }
    }
}

/// An item in the list of a position is one of those that were added there.
pub proof fn lemma_item_at<E>(items: Seq<(u64, E)>, y: u64, i: int)
    requires
        0 <= i < items_at(items, y).len(),
    ensures
        exists|k: int|
            0 <= k < items.len() && (#[trigger] items[k]).0 == y && items[k].1 == items_at(
                items,
                y,
            )[i],
    decreases items.len(),
{
    let front = items.drop_last();
    if items.last().0 == y && i == items_at(items, y).len() - 1 {
        assert(items[items.len() - 1].1 == items_at(items, y)[i]);
    } else {
        lemma_item_at(front, y, i);
        let k = choose|k: int|
            0 <= k < front.len() && (#[trigger] front[k]).0 == y && front[k].1 == items_at(
                front,
                y,
            )[i];
        assert(items[k] == front[k]);
    }
}

/// Items in the list of a position are in the order in which they were added.
pub proof fn lemma_items_in_order<E>(items: Seq<(u64, E)>, y: u64, i: int, j: int)
    requires
        0 <= i < j < items_at(items, y).len(),
    ensures
        exists|k: int, m: int|
            0 <= k < m < items.len() && (#[trigger] items[k]).1 == items_at(items, y)[i]
                && (#[trigger] items[m]).1 == items_at(items, y)[j],
    decreases items.len(),
{
    let front = items.drop_last();
    if items.last().0 == y && j == items_at(items, y).len() - 1 {
        lemma_item_at(front, y, i);
        let k = choose|k: int|
            0 <= k < front.len() && (#[trigger] front[k]).0 == y && front[k].1 == items_at(
                front,
                y,
            )[i];
        assert(items[k] == front[k]);
        assert(items[items.len() - 1].1 == items_at(items, y)[j]);
    } else {
        lemma_items_in_order(front, y, i, j);
        let (k, m) = choose|k: int, m: int|
            0 <= k < m < front.len() && (#[trigger] front[k]).1 == items_at(front, y)[i]
                && (#[trigger] front[m]).1 == items_at(front, y)[j];
        assert(items[k] == front[k] && items[m] == front[m]);
    }
}

/// Grouping one item more.
pub proof fn lemma_grouped_push<E>(items: Seq<(u64, E)>, y: u64, item: E)
    ensures
        grouped(items.push((y, item))) == added(grouped(items), y, item),
{
    assert(items.push((y, item)).drop_last() =~= items);
}

/// Whether entries in ascending order of their positions hold the given lists.
spec fn holds<E>(entries: Seq<(YCoordinate, Vec<E>)>, lists: Map<u64, Seq<E>>) -> bool {
    &&& forall|i: int, j: int|
        0 <= i < j < entries.len() ==> (#[trigger] entries[i]).0@ < (#[trigger] entries[j]).0@
    &&& forall|i: int|
        0 <= i < entries.len() ==> lists.dom().contains((#[trigger] entries[i]).0@)
            && lists[entries[i].0@] == entries[i].1@
    &&& forall|y: u64| #[trigger]
        lists.dom().contains(y) ==> exists|i: int|
            0 <= i < entries.len() && (#[trigger] entries[i]).0@ == y
}

/// Extending the list at one of the positions.
proof fn lemma_extended<E>(
    s: Seq<(YCoordinate, Vec<E>)>,
    lists: Map<u64, Seq<E>>,
    k: int,
    y: YCoordinate,
    item: E,
    t: Seq<(YCoordinate, Vec<E>)>,
)
    requires
        holds(s, lists),
        0 <= k < s.len(),
        s[k].0@ == y@,
        t.len() == s.len(),
        t[k].0 == s[k].0,
        t[k].1@ == s[k].1@.push(item),
        forall|j: int| 0 <= j < s.len() && j != k ==> t[j] == s[j],
    ensures
        holds(t, added(lists, y@, item)),
{
    let after = added(lists, y@, item);
    assert forall|i: int| 0 <= i < t.len() implies after.dom().contains((#[trigger] t[i]).0@)
        && after[t[i].0@] == t[i].1@ by {
        assert(lists.dom().contains(s[i].0@));
        if i < k {
            assert(s[i].0@ < s[k].0@);
        } else if i > k {
            assert(s[k].0@ < s[i].0@);
        }
    }
    assert forall|z: u64| #[trigger] after.dom().contains(z) implies exists|i: int|
        0 <= i < t.len() && (#[trigger] t[i]).0@ == z by {
        if z == y@ {
            assert(t[k].0@ == z);
        } else {
            let i = choose|i: int| 0 <= i < s.len() && (#[trigger] s[i]).0@ == z;
            assert(t[i].0@ == z);
        }
    }
    assert forall|i: int, j: int| 0 <= i < j < t.len() implies (#[trigger] t[i]).0@ < (
    #[trigger] t[j]).0@ by {
        assert(s[i].0@ < s[j].0@);
    }
}

/// Opening a list at a new position.
proof fn lemma_opened<E>(
    s: Seq<(YCoordinate, Vec<E>)>,
    lists: Map<u64, Seq<E>>,
    k: int,
    y: YCoordinate,
    item: E,
    list: Vec<E>,
)
    requires
        holds(s, lists),
        0 <= k <= s.len(),
        k > 0 ==> s[k - 1].0@ < y@,
        forall|j: int| k <= j < s.len() ==> y@ < (#[trigger] s[j]).0@,
        list@ == Seq::<E>::empty().push(item),
    ensures
        holds(s.insert(k, (y, list)), added(lists, y@, item)),
{
    let t = s.insert(k, (y, list));
    let after = added(lists, y@, item);
    assert forall|j: int| 0 <= j < k implies (#[trigger] s[j]).0@ < y@ by {
        if j < k - 1 {
            assert(s[j].0@ < s[k - 1].0@);
        }
    }
    assert(!lists.dom().contains(y@));
    assert forall|i: int| 0 <= i < t.len() implies after.dom().contains((#[trigger] t[i]).0@)
        && after[t[i].0@] == t[i].1@ by {
        if i < k {
            assert(t[i] == s[i]);
        } else if i > k {
            assert(t[i] == s[i - 1]);
        }
    }
    assert forall|z: u64| #[trigger] after.dom().contains(z) implies exists|i: int|
        0 <= i < t.len() && (#[trigger] t[i]).0@ == z by {
        if z == y@ {
            assert(t[k].0@ == z);
        } else {
            let i = choose|i: int| 0 <= i < s.len() && (#[trigger] s[i]).0@ == z;
            if i < k {
                assert(t[i].0@ == z);
            } else {
                assert(t[i + 1].0@ == z);
            }
        }
    }
    assert forall|i: int, j: int| 0 <= i < j < t.len() implies (#[trigger] t[i]).0@ < (
    #[trigger] t[j]).0@ by {
        let a = if i < k {
            i
        } else {
            i - 1
        };
        let b = if j < k {
            j
        } else {
            j - 1
        };
        if i < k {
            assert(t[i] == s[i]);
        } else if i > k {
            assert(t[i] == s[i - 1]);
        }
        if j < k {
            assert(t[j] == s[j]);
        } else if j > k {
            assert(t[j] == s[j - 1]);
        }
        if i != k && j != k {
            assert(s[a].0@ < s[b].0@);
        }
    }
}

/// Lists by position, in ascending order of the positions.
pub struct ByPosition<E> {
    entries: Vec<(YCoordinate, Vec<E>)>,
    lists: Ghost<Map<u64, Seq<E>>>,
}

impl<E> View for ByPosition<E> {
    type V = Map<u64, Seq<E>>;

    closed spec fn view(&self) -> Map<u64, Seq<E>> {
        self.lists@
    }
}

impl<E> ByPosition<E> {
    #[verifier::type_invariant]
    spec fn inv(self) -> bool {
        holds(self.entries@, self.lists@)
    }

    /// The positions, in ascending order.
    pub closed spec fn positions(self) -> Seq<YCoordinate> {
        self.entries@.map_values(|entry: (YCoordinate, Vec<E>)| entry.0)
    }

    /// No lists.
    pub fn new() -> (r: Self)
        ensures
            r@ == Map::<u64, Seq<E>>::empty(),
    {
        ByPosition { entries: Vec::new(), lists: Ghost(Map::empty()) }
    }

    /// The number of positions.
    pub fn len(&self) -> (r: usize)
        ensures
            r == self.positions().len(),
            are_positions(self.positions(), self@),
    {
        proof {
            use_type_invariant(self);
            assert forall|y: u64| #[trigger] self@.dom().contains(y) implies exists|i: int|
                0 <= i < self.positions().len() && (#[trigger] self.positions()[i])@ == y by {
                let i = choose|i: int|
                    0 <= i < self.entries@.len() && (#[trigger] self.entries@[i]).0@ == y;
                assert(self.positions()[i]@ == y);
            }
        }
        self.entries.len()
    }

    /// One of the positions.
    pub fn position(&self, i: usize) -> (r: YCoordinate)
        requires
            i < self.positions().len(),
        ensures
            r == self.positions()[i as int],
    {
        self.entries[i].0
    }

    /// The list at one of the positions.
    pub fn list(&self, i: usize) -> (r: &Vec<E>)
        requires
            i < self.positions().len(),
        ensures
            r@ == self@[self.positions()[i as int]@],
    {
        proof {
            use_type_invariant(self);
        }
        &self.entries[i].1
    }

    /// The last position.
    pub fn last_position(&self) -> (r: Option<YCoordinate>)
        ensures
            is_last_position(self@, r),
    {
        proof {
            use_type_invariant(self);
        }
        if self.entries.len() == 0 {
            None
        } else {
            Some(self.entries[self.entries.len() - 1].0)
        }
    }

    /// Adds an item at a position.
    pub fn push(&mut self, y: YCoordinate, item: E)
        ensures
            final(self)@ == added(old(self)@, y@, item),
    {
        proof {
            use_type_invariant(&*self);
        }
        let ghost lists = self.lists@;
        let ghost s = self.entries@;
        let mut fresh = ByPosition::new();
        std::mem::swap(self, &mut fresh);
        let ByPosition { entries: taken, lists: _ } = fresh;
        let mut entries = taken;
        let mut i: usize = entries.len();
        while i > 0 && y.is_below(&entries[i - 1].0)
            invariant
                i <= entries@.len(),
                entries@ == s,
                forall|j: int| i <= j < s.len() ==> y@ < (#[trigger] s[j]).0@,
            decreases i,
        {
            i = i - 1;
        }
        let ghost after = added(lists, y@, item);
        if i > 0 && !entries[i - 1].0.is_below(&y) {
            entries[i - 1].1.push(item);
            proof {
                lemma_extended(s, lists, i - 1, y, item, entries@);
            }
        } else {
            let mut list: Vec<E> = Vec::new();
            list.push(item);
            proof {
                assert(list@ =~= Seq::<E>::empty().push(item));
                lemma_opened(s, lists, i as int, y, item, list);
            }
            entries.insert(i, (y, list));
        }
        *self = ByPosition { entries, lists: Ghost(after) };
    }
}

impl<E: Copy> ByPosition<E> {
    /// The same lists.
    pub fn duplicate(&self) -> (r: Self)
        ensures
            r@ == self@,
    {
        proof {
            use_type_invariant(self);
        }
        let mut entries: Vec<(YCoordinate, Vec<E>)> = Vec::new();
        let mut i: usize = 0;
        while i < self.entries.len()
            invariant
                i <= self.entries@.len(),
                entries@.len() == i,
                forall|k: int|
                    0 <= k < i ==> (#[trigger] entries@[k]).0 == self.entries@[k].0 && entries@[k].1@
                        == self.entries@[k].1@,
            decreases self.entries@.len() - i,
        {
            let source = &self.entries[i].1;
            let mut list: Vec<E> = Vec::new();
            let mut j: usize = 0;
            while j < source.len()
                invariant
                    j <= source@.len(),
                    list@ == source@.take(j as int),
                decreases source@.len() - j,
            {
                list.push(source[j]);
                assert(list@ =~= source@.take(j + 1));
                j = j + 1;
            }
            assert(list@ =~= source@);
            entries.push((self.entries[i].0, list));
            i = i + 1;
        }
        proof {
            assert forall|y: u64| #[trigger] self.lists@.dom().contains(y) implies exists|k: int|
                0 <= k < entries@.len() && (#[trigger] entries@[k]).0@ == y by {
                let k = choose|k: int|
                    0 <= k < self.entries@.len() && (#[trigger] self.entries@[k]).0@ == y;
                assert(entries@[k].0@ == y);
            }
        }
        ByPosition { entries, lists: self.lists }
    }
}

/// Whether the positions that have a list are the given ones, in strictly ascending
/// order.
pub open spec fn are_positions<E>(positions: Seq<YCoordinate>, lists: Map<u64, Seq<E>>) -> bool {
    &&& forall|i: int, j: int|
        0 <= i < j < positions.len() ==> (#[trigger] positions[i])@ < (#[trigger] positions[j])@
    &&& forall|i: int|
        0 <= i < positions.len() ==> lists.dom().contains((#[trigger] positions[i])@)
    &&& forall|y: u64| #[trigger]
        lists.dom().contains(y) ==> exists|i: int|
            0 <= i < positions.len() && (#[trigger] positions[i])@ == y
}

/// Whether a position is the last one that has a list.
pub open spec fn is_last_position<E>(lists: Map<u64, Seq<E>>, last: Option<YCoordinate>) -> bool {
    match last {
        Some(y) => lists.dom().contains(y@) && forall|other: u64| #[trigger]
            lists.dom().contains(other) ==> other <= y@,
        None => forall|other: u64| !#[trigger] lists.dom().contains(other),
    }
}

/// The positions of entries.
pub open spec fn keys_of<V>(s: Seq<(YCoordinate, V)>) -> Set<u64> {
    Set::new(|y: u64| exists|i: int| 0 <= i < s.len() && (#[trigger] s[i]).0@ == y)
}

/// Placing an entry adds its position.
pub proof fn lemma_placed_keys<V>(s: Seq<(YCoordinate, V)>, key: YCoordinate, value: V)
    ensures
        keys_of(placed(s, key, value)) == keys_of(s).insert(key@),
    decreases s.len(),
{
    let r = placed(s, key, value);
    if s.len() == 0 || s.last().0.below(key) {
        lemma_pushed_keys(s, (key, value));
    } else if key.below(s.last().0) {
        lemma_placed_keys(s.drop_last(), key, value);
        lemma_pushed_keys(placed(s.drop_last(), key, value), s.last());
        lemma_pushed_keys(s.drop_last(), s.last());
        assert(s =~= s.drop_last().push(s.last()));
        assert(keys_of(r) =~= keys_of(s).insert(key@));
    } else {
        lemma_pushed_keys(s.drop_last(), (s.last().0, value));
        lemma_pushed_keys(s.drop_last(), s.last());
        assert(s =~= s.drop_last().push(s.last()));
        assert(keys_of(r) =~= keys_of(s).insert(key@));
    }
}

/// Adding an entry adds its position.
pub proof fn lemma_pushed_keys<V>(s: Seq<(YCoordinate, V)>, entry: (YCoordinate, V))
    ensures
        keys_of(s.push(entry)) == keys_of(s).insert(entry.0@),
{
    let r = s.push(entry);
    assert forall|y: u64| keys_of(r).contains(y) == keys_of(s).insert(entry.0@).contains(y) by {
        if keys_of(s).contains(y) {
            let i = choose|i: int| 0 <= i < s.len() && (#[trigger] s[i]).0@ == y;
            assert(r[i].0@ == y);
        }
        if y == entry.0@ {
            assert(r[s.len() as int].0@ == y);
        }
        if keys_of(r).contains(y) {
            let i = choose|i: int| 0 <= i < r.len() && (#[trigger] r[i]).0@ == y;
            if i < s.len() {
                assert(s[i].0@ == y);
            }
        }
    }
    assert(keys_of(r) =~= keys_of(s).insert(entry.0@));
}

} // verus!
