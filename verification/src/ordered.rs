//! Maps that keep their entries in ascending order of the keys.

use vstd::prelude::*;

verus! {

/// A key with a strict weak order: two keys of which neither is below the other
/// stand for the same place.
pub trait OrderKey: Copy {
    /// Whether this key comes before another.
    spec fn below(self, other: Self) -> bool;

    /// No key comes before itself.
    proof fn lemma_irreflexive(a: Self)
        ensures
            !a.below(a),
    ;

    /// The order is transitive.
    proof fn lemma_transitive(a: Self, b: Self, c: Self)
        requires
            a.below(b),
            b.below(c),
        ensures
            a.below(c),
    ;

    /// Not being below is transitive.
    proof fn lemma_not_below_transitive(a: Self, b: Self, c: Self)
        requires
            !a.below(b),
            !b.below(c),
        ensures
            !a.below(c),
    ;

    /// Whether this key comes before another.
    fn is_below(&self, other: &Self) -> (r: bool)
        ensures
            r == self.below(*other),
    ;
}

/// Whether two keys stand for the same place.
pub open spec fn same_place<K: OrderKey>(a: K, b: K) -> bool {
    !a.below(b) && !b.below(a)
}

/// Whether the entries are in strictly ascending order.
pub open spec fn ascending<K: OrderKey, V>(s: Seq<(K, V)>) -> bool {
    forall|i: int, j: int| 0 <= i < j < s.len() ==> (#[trigger] s[i]).0.below((#[trigger] s[j]).0)
}

/// The entries after `key` has been given `value`.
pub open spec fn placed<K: OrderKey, V>(s: Seq<(K, V)>, key: K, value: V) -> Seq<(K, V)>
    decreases s.len(),
{
    if s.len() == 0 || s.last().0.below(key) {
        s.push((key, value))
    } else if key.below(s.last().0) {
        placed(s.drop_last(), key, value).push(s.last())
    } else {
        s.drop_last().push((s.last().0, value))
    }
}

/// The value of the last entry strictly before `key`.
pub open spec fn last_before<K: OrderKey, V>(s: Seq<(K, V)>, key: K) -> Option<V>
    decreases s.len(),
{
    if s.len() == 0 {
        None
    } else if s.last().0.below(key) {
        Some(s.last().1)
    } else {
        last_before(s.drop_last(), key)
    }
}

/// The value of the last entry that is not after `key`.
pub open spec fn last_up_to<K: OrderKey, V>(s: Seq<(K, V)>, key: K) -> Option<V>
    decreases s.len(),
{
    if s.len() == 0 {
        None
    } else if !key.below(s.last().0) {
        Some(s.last().1)
    } else {
        last_up_to(s.drop_last(), key)
    }
}

/// The value of the entry at `key`.
pub open spec fn value_of<K: OrderKey, V>(s: Seq<(K, V)>, key: K) -> Option<V>
    decreases s.len(),
{
    if s.len() == 0 {
        None
    } else if same_place(s.last().0, key) {
        Some(s.last().1)
    } else {
        value_of(s.drop_last(), key)
    }
}

/// Placing a value behind all others.
pub proof fn lemma_placed_last<K: OrderKey, V>(s: Seq<(K, V)>, key: K, value: V)
    requires
        s.len() > 0 ==> s.last().0.below(key),
    ensures
        placed(s, key, value) == s.push((key, value)),
{
}

/// A map with its entries in strictly ascending order.
#[derive(Debug)]
pub struct OrderedMap<K: OrderKey, V> {
    entries: Vec<(K, V)>,
}

impl<K: OrderKey, V> View for OrderedMap<K, V> {
    type V = Seq<(K, V)>;

    closed spec fn view(&self) -> Seq<(K, V)> {
        self.entries@
    }
}

/// Placing a value keeps the order; every key of the result is the new one or an old
/// one.
pub proof fn lemma_placed_ascending<K: OrderKey, V>(s: Seq<(K, V)>, key: K, value: V)
    requires
        ascending(s),
    ensures
        ascending(placed(s, key, value)),
        forall|i: int|
            0 <= i < placed(s, key, value).len() ==> (#[trigger] placed(s, key, value)[i]).0 == key
                || exists|j: int|
                0 <= j < s.len() && (#[trigger] s[j]).0 == placed(s, key, value)[i].0,
    decreases s.len(),
{
    let r = placed(s, key, value);
    if s.len() == 0 {
    } else if s.last().0.below(key) {
        assert forall|i: int, j: int| 0 <= i < j < r.len() implies (#[trigger] r[i]).0.below(
            (#[trigger] r[j]).0,
        ) by {
            if j == s.len() && i < s.len() - 1 {
                K::lemma_transitive(s[i].0, s.last().0, key);
            }
        }
        assert forall|i: int| 0 <= i < r.len() implies (#[trigger] r[i]).0 == key || exists|j: int|
            0 <= j < s.len() && (#[trigger] s[j]).0 == r[i].0 by {
            if i < s.len() {
                assert(s[i].0 == r[i].0);
            }
        }
    } else if key.below(s.last().0) {
        let front = s.drop_last();
        lemma_placed_ascending(front, key, value);
        let p = placed(front, key, value);
        assert forall|i: int, j: int| 0 <= i < j < r.len() implies (#[trigger] r[i]).0.below(
            (#[trigger] r[j]).0,
        ) by {
            if j == p.len() {
                assert(p[i].0 == key || exists|t: int|
                    0 <= t < front.len() && (#[trigger] front[t]).0 == p[i].0);
            }
        }
        assert forall|i: int| 0 <= i < r.len() implies (#[trigger] r[i]).0 == key || exists|j: int|
            0 <= j < s.len() && (#[trigger] s[j]).0 == r[i].0 by {
            if i < p.len() {
                assert(p[i].0 == r[i].0);
                if p[i].0 != key {
                    let t = choose|t: int|
                        0 <= t < front.len() && (#[trigger] front[t]).0 == p[i].0;
                    assert(s[t].0 == r[i].0);
                }
            } else {
                assert(s[s.len() - 1].0 == r[i].0);
            }
        }
    } else {
        assert forall|i: int| 0 <= i < r.len() implies (#[trigger] r[i]).0 == key || exists|j: int|
            0 <= j < s.len() && (#[trigger] s[j]).0 == r[i].0 by {
            assert(s[i].0 == r[i].0);
        }
    }
}

/// The last entry that is not after a key is found: no later entry counts.
pub proof fn lemma_last_up_to<K: OrderKey, V>(s: Seq<(K, V)>, key: K, i: int)
    requires
        0 <= i < s.len(),
        !key.below(s[i].0),
        forall|j: int| i < j < s.len() ==> key.below((#[trigger] s[j]).0),
    ensures
        last_up_to(s, key) == Some(s[i].1),
    decreases s.len(),
{
    if i < s.len() - 1 {
        assert(key.below(s[s.len() - 1].0));
        lemma_last_up_to(s.drop_last(), key, i);
    }
}

/// Where all entries are after a key, there is none up to it.
pub proof fn lemma_none_up_to<K: OrderKey, V>(s: Seq<(K, V)>, key: K)
    requires
        forall|j: int| 0 <= j < s.len() ==> key.below((#[trigger] s[j]).0),
    ensures
        last_up_to(s, key) is None,
    decreases s.len(),
{
    if s.len() > 0 {
        assert(key.below(s[s.len() - 1].0));
        lemma_none_up_to(s.drop_last(), key);
    }
}

/// The last entry before a key is found: no later entry counts.
pub proof fn lemma_last_before_at<K: OrderKey, V>(s: Seq<(K, V)>, key: K, i: int)
    requires
        0 <= i < s.len(),
        s[i].0.below(key),
        forall|j: int| i < j < s.len() ==> !(#[trigger] s[j]).0.below(key),
    ensures
        last_before(s, key) == Some(s[i].1),
    decreases s.len(),
{
    if i < s.len() - 1 {
        assert(!s[s.len() - 1].0.below(key));
        lemma_last_before_at(s.drop_last(), key, i);
    }
}

/// Where no entry is before a key, there is no last one.
pub proof fn lemma_none_before<K: OrderKey, V>(s: Seq<(K, V)>, key: K)
    requires
        forall|j: int| 0 <= j < s.len() ==> !(#[trigger] s[j]).0.below(key),
    ensures
        last_before(s, key) is None,
    decreases s.len(),
{
    if s.len() > 0 {
        assert(!s[s.len() - 1].0.below(key));
        lemma_none_before(s.drop_last(), key);
    }
}

/// A key that is present has the value of its entry.
pub proof fn lemma_value_of<K: OrderKey, V>(s: Seq<(K, V)>, key: K, i: int)
    requires
        ascending(s),
        0 <= i < s.len(),
        !s[i].0.below(key),
        !key.below(s[i].0),
    ensures
        value_of(s, key) == Some(s[i].1),
    decreases s.len(),
{
    if i < s.len() - 1 {
        let last = s[s.len() - 1].0;
        assert(s[i].0.below(last));
        if !key.below(last) {
            K::lemma_not_below_transitive(s[i].0, key, last);
        }
        lemma_value_of(s.drop_last(), key, i);
    }
}

/// A key that is not present has no value.
pub proof fn lemma_no_value<K: OrderKey, V>(s: Seq<(K, V)>, key: K)
    requires
        forall|j: int|
            0 <= j < s.len() ==> (#[trigger] s[j]).0.below(key) || key.below(s[j].0),
    ensures
        value_of(s, key) is None,
    decreases s.len(),
{
    if s.len() > 0 {
        assert(s[s.len() - 1].0.below(key) || key.below(s[s.len() - 1].0));
        lemma_no_value(s.drop_last(), key);
    }
}

/// What a map gives back: after a key has been given a value, it has that value, and
/// every other key has the one that it had before.
pub proof fn lemma_given_back<K: OrderKey, V>(s: Seq<(K, V)>, key: K, value: V, other: K)
    requires
        ascending(s),
    ensures
        !key.below(other) && !other.below(key) ==> value_of(placed(s, key, value), other) == Some(
            value,
        ),
        key.below(other) || other.below(key) ==> value_of(placed(s, key, value), other)
            == value_of(s, other),
    decreases s.len(),
{
    let r = placed(s, key, value);
    let same = !key.below(other) && !other.below(key);
    if s.len() == 0 || s.last().0.below(key) {
        assert(r.drop_last() =~= s);
    } else {
        let last = s.last().0;
        let front = s.drop_last();
        if key.below(last) {
            assert(r.drop_last() =~= placed(front, key, value));
            lemma_given_back(front, key, value, other);
            if same && same_place(last, other) {
                K::lemma_not_below_transitive(key, other, last);
            }
        } else {
            assert(r.drop_last() =~= front);
            if same {
                K::lemma_not_below_transitive(last, key, other);
                K::lemma_not_below_transitive(other, key, last);
            } else if same_place(last, other) {
                if key.below(other) {
                    K::lemma_not_below_transitive(key, last, other);
                } else {
                    K::lemma_not_below_transitive(other, last, key);
                }
            }
        }
    }
}

impl<K: OrderKey, V> OrderedMap<K, V> {
    #[verifier::type_invariant]
    spec fn inv(self) -> bool {
        ascending(self.entries@)
    }

    /// An empty map.
    pub fn new() -> (r: Self)
        ensures
            r@ == Seq::<(K, V)>::empty(),
    {
        OrderedMap { entries: Vec::new() }
    }

    /// The number of entries.
    pub fn len(&self) -> (r: usize)
        ensures
            r == self@.len(),
    {
        self.entries.len()
    }

    /// The entries, in ascending order of the keys.
    pub fn entries(&self) -> (r: &Vec<(K, V)>)
        ensures
            r@ == self@,
            ascending(r@),
    {
        proof {
            use_type_invariant(self);
        }
        &self.entries
    }

    /// Gives a key a value. A key that is present keeps its place and takes the new
    /// value.
    pub fn insert(&mut self, key: K, value: V)
        ensures
            final(self)@ == placed(old(self)@, key, value),
    {
        proof {
            use_type_invariant(&*self);
            lemma_placed_ascending(self.entries@, key, value);
        }
        let mut entries: Vec<(K, V)> = Vec::new();
        std::mem::swap(&mut entries, &mut self.entries);
        let ghost s = entries@;
        let mut i: usize = entries.len();
        assert(s.take(i as int) =~= s);
        while i > 0 && key.is_below(&entries[i - 1].0)
            invariant
                i <= entries@.len(),
                entries@ == s,
                placed(s, key, value) == placed(s.take(i as int), key, value) + s.skip(i as int),
            decreases i,
        {
            proof {
                let t = s.take(i as int);
                assert(t.last() == s[i - 1]);
                K::lemma_irreflexive(key);
                if s[i - 1].0.below(key) {
                    K::lemma_transitive(key, s[i - 1].0, key);
                }
                assert(t.drop_last() =~= s.take(i - 1));
                assert(placed(s, key, value) =~= placed(s.take(i - 1), key, value) + s.skip(i - 1));
            }
            i = i - 1;
        }
        proof {
            let t = s.take(i as int);
            if i > 0 {
                assert(t.last() == s[i - 1]);
            }
        }
        if i > 0 && !entries[i - 1].0.is_below(&key) {
            let old_key = entries[i - 1].0;
            entries.set(i - 1, (old_key, value));
            assert(entries@ =~= placed(s, key, value));
        } else {
            entries.insert(i, (key, value));
            assert(entries@ =~= placed(s, key, value));
        }
        self.entries = entries;
    }

    /// The value of the last entry strictly before a key.
    pub fn last_before(&self, key: K) -> (r: Option<&V>)
        ensures
            option_value(r) == last_before(self@, key),
    {
        let ghost s = self.entries@;
        let mut i: usize = self.entries.len();
        assert(s.take(i as int) =~= s);
        while i > 0 && !self.entries[i - 1].0.is_below(&key)
            invariant
                i <= s.len(),
                s == self.entries@,
                last_before(s, key) == last_before(s.take(i as int), key),
            decreases i,
        {
            assert(s.take(i as int).drop_last() =~= s.take(i - 1));
            i = i - 1;
        }
        if i > 0 {
            Some(&self.entries[i - 1].1)
        } else {
            None
        }
    }

    /// The value of the last entry that is not after a key.
    pub fn last_up_to(&self, key: K) -> (r: Option<&V>)
        ensures
            option_value(r) == last_up_to(self@, key),
    {
        let ghost s = self.entries@;
        let mut i: usize = self.entries.len();
        assert(s.take(i as int) =~= s);
        while i > 0 && key.is_below(&self.entries[i - 1].0)
            invariant
                i <= s.len(),
                s == self.entries@,
                last_up_to(s, key) == last_up_to(s.take(i as int), key),
            decreases i,
        {
            assert(s.take(i as int).drop_last() =~= s.take(i - 1));
            i = i - 1;
        }
        if i > 0 {
            Some(&self.entries[i - 1].1)
        } else {
            None
        }
    }

    /// The value at a key.
    pub fn get(&self, key: K) -> (r: Option<&V>)
        ensures
            option_value(r) == value_of(self@, key),
    {
        let ghost s = self.entries@;
        let mut i: usize = self.entries.len();
        assert(s.take(i as int) =~= s);
        while i > 0 && (key.is_below(&self.entries[i - 1].0) || self.entries[i - 1].0.is_below(&key))
            invariant
                i <= s.len(),
                s == self.entries@,
                value_of(s, key) == value_of(s.take(i as int), key),
            decreases i,
        {
            assert(s.take(i as int).drop_last() =~= s.take(i - 1));
            i = i - 1;
        }
        if i > 0 {
            Some(&self.entries[i - 1].1)
        } else {
            None
        }
    }

    /// The last key.
    pub fn last_key(&self) -> (r: Option<K>)
        ensures
            r == last_key_of(self@),
    {
        if self.entries.len() == 0 {
            None
        } else {
            Some(self.entries[self.entries.len() - 1].0)
        }
    }
}

impl<K: OrderKey, V: Copy> OrderedMap<K, V> {
    /// A map with the same entries.
    pub fn duplicate(&self) -> (r: Self)
        ensures
            r@ == self@,
    {
        proof {
            use_type_invariant(self);
        }
        let mut entries: Vec<(K, V)> = Vec::new();
        let mut i: usize = 0;
        while i < self.entries.len()
            invariant
                i <= self.entries@.len(),
                entries@ == self.entries@.take(i as int),
            decreases self.entries@.len() - i,
        {
            let entry = self.entries[i];
            entries.push(entry);
            assert(entries@ =~= self.entries@.take(i + 1));
            i = i + 1;
        }
        assert(entries@ =~= self.entries@);
        OrderedMap { entries }
    }
}

impl<K: OrderKey, V> Default for OrderedMap<K, V> {
    fn default() -> (r: Self)
        ensures
            r@ == Seq::<(K, V)>::empty(),
    {
        OrderedMap::new()
    }
}

/// The last key of the entries.
pub open spec fn last_key_of<K: OrderKey, V>(s: Seq<(K, V)>) -> Option<K> {
    if s.len() == 0 {
        None
    } else {
        Some(s.last().0)
    }
}

/// What an optional reference refers to.
pub open spec fn option_value<V>(r: Option<&V>) -> Option<V> {
    match r {
        Some(v) => Some(*v),
        None => None,
    }
}

} // verus!
