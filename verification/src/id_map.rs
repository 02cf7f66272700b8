//! Small ordered maps keyed by numeric identifiers.
//!
//! An [`IdMap`] keeps its entries strictly ordered by key, so walking its
//! entries visits keys in increasing order, as an ordered map does.

use vstd::prelude::*;

verus! {

/// A key that is identified by a single `u32`.
pub trait IdKey: Copy + Sized {
    /// The number that identifies this key.
    spec fn key_of(&self) -> u32;

    /// Returns the number that identifies this key.
    fn key(&self) -> (k: u32)
        ensures
            k == self.key_of(),
    ;

    /// Equal numbers identify equal keys.
    proof fn lemma_key_injective(a: Self, b: Self)
        requires
            a.key_of() == b.key_of(),
        ensures
            a == b,
    ;
}

/// Keys strictly increase along `s`.
pub open spec fn keys_increasing<K: IdKey, V>(s: Seq<(K, V)>) -> bool {
    forall|i: int, j: int| 0 <= i < j < s.len() ==> #[trigger] s[i].0.key_of() < #[trigger] s[j].0.key_of()
}

/// `k` is one of the keys of `s`.
pub open spec fn has_key<K, V>(s: Seq<(K, V)>, k: K) -> bool {
    exists|i: int| 0 <= i < s.len() && #[trigger] s[i].0 == k
}

/// The position of key `k` in `s`.
pub open spec fn key_position<K, V>(s: Seq<(K, V)>, k: K) -> int {
    choose|i: int| 0 <= i < s.len() && #[trigger] s[i].0 == k
}

/// The value that `s` holds for key `k`.
pub open spec fn lookup<K, V>(s: Seq<(K, V)>, k: K) -> Option<V> {
    if has_key(s, k) {
        Some(s[key_position(s, k)].1)
    } else {
        None
    }
}

/// In a key-ordered sequence, the entry with key `k` is the one at position `i`.
pub proof fn lemma_lookup_at<K: IdKey, V>(s: Seq<(K, V)>, i: int)
    requires
        keys_increasing(s),
        0 <= i < s.len(),
    ensures
        has_key(s, s[i].0),
        key_position(s, s[i].0) == i,
        lookup(s, s[i].0) == Some(s[i].1),
{
    let k = s[i].0;
    assert(s[i].0 == k);
    let p = key_position(s, k);
    if p != i {
        if p < i {
            assert(s[p].0.key_of() < s[i].0.key_of());
        } else {
            assert(s[i].0.key_of() < s[p].0.key_of());
        }
    }
}

/// The keys of `s` are those of `old` together with `k`, each keeping its
/// value, except that `k` now holds `v`.
pub open spec fn inserted<K, V>(old: Seq<(K, V)>, new: Seq<(K, V)>, k: K, v: V) -> bool {
    &&& lookup(new, k) == Some(v)
    &&& forall|x: K| x != k ==> lookup(new, x) == #[trigger] lookup(old, x)
}

/// The keys of `new` are those of `old` but `k`, each keeping its value.
pub open spec fn removed<K, V>(old: Seq<(K, V)>, new: Seq<(K, V)>, k: K) -> bool {
    &&& lookup(new, k) is None
    &&& forall|x: K| x != k ==> lookup(new, x) == #[trigger] lookup(old, x)
}

/// A map from identifiers to values, ordered by identifier.
#[derive(Debug, PartialEq, Eq)]
pub struct IdMap<K: IdKey, V> {
    entries: Vec<(K, V)>,
}

impl<K: IdKey, V> View for IdMap<K, V> {
    type V = Seq<(K, V)>;

    closed spec fn view(&self) -> Seq<(K, V)> {
        self.entries@
    }
}

impl<K: IdKey, V> IdMap<K, V> {
    /// The entries are ordered by strictly increasing key.
    #[verifier::type_invariant]
    pub closed spec fn ordered(&self) -> bool {
        keys_increasing(self.entries@)
    }

    /// A map holds at most `usize::MAX` entries.
    pub proof fn lemma_len_fits(self)
        ensures
            self@.len() <= usize::MAX,
    {
        assert(self.entries@.len() == self.entries.len());
    }

    /// Returns the entries in increasing key order.
    pub fn entries(&self) -> (r: &Vec<(K, V)>)
        ensures
            r@ == self@,
            keys_increasing(self@),
    {
        proof {
            use_type_invariant(self);
        }
        &self.entries
    }

    /// Wraps entries that are already in strictly increasing key order.
    pub fn from_sorted(entries: Vec<(K, V)>) -> (r: Self)
        requires
            keys_increasing(entries@),
        ensures
            r@ == entries@,
    {
        IdMap { entries }
    }

    /// Creates an empty map.
    pub fn new() -> (r: Self)
        ensures
            r@ == Seq::<(K, V)>::empty(),
    {
        IdMap { entries: Vec::new() }
    }

    /// Returns the number of entries.
    pub fn len(&self) -> (n: usize)
        ensures
            n == self@.len(),
    {
        self.entries.len()
    }

    /// Returns whether the map has no entries.
    pub fn is_empty(&self) -> (b: bool)
        ensures
            b == (self@.len() == 0),
    {
        self.entries.len() == 0
    }

    /// Finds the position of `k`, or the position where it would be inserted.
    fn search(&self, k: &K) -> (r: (usize, bool))
        ensures
            r.0 <= self@.len(),
            r.1 ==> r.0 < self@.len() && self@[r.0 as int].0 == *k,
            !r.1 ==> !has_key(self@, *k),
            forall|i: int| 0 <= i < r.0 ==> #[trigger] self@[i].0.key_of() < k.key_of(),
            forall|i: int| r.0 <= i < self@.len() && !r.1 ==> #[trigger] self@[i].0.key_of() > k.key_of(),
    {
        proof {
            use_type_invariant(self);
        }
        let target = k.key();
        let mut i: usize = 0;
        while i < self.entries.len()
            invariant
                i <= self.entries@.len(),
                target == k.key_of(),
                keys_increasing(self.entries@),
                forall|j: int| 0 <= j < i ==> #[trigger] self.entries@[j].0.key_of() < k.key_of(),
            decreases self.entries@.len() - i,
        {
            let key = self.entries[i].0.key();
            if key == target {
                proof {
                    K::lemma_key_injective(self.entries@[i as int].0, *k);
                }
                return (i, true);
            }
            if key > target {
                assert forall|x: int| i <= x < self@.len() implies #[trigger] self@[x].0.key_of() > k.key_of() by {
                    if x > i {
                        assert(self.entries@[i as int].0.key_of() < self.entries@[x].0.key_of());
                    }
                }
                return (i, false);
            }
            i = i + 1;
        }
        (i, false)
    }

    /// Returns the value for `k`, if any.
    pub fn get(&self, k: &K) -> (r: Option<&V>)
        ensures
            r matches Some(v) ==> lookup(self@, *k) == Some(*v),
            r is None ==> lookup(self@, *k) is None,
    {
        proof {
            use_type_invariant(self);
        }
        let (i, found) = self.search(k);
        if found {
            proof {
                lemma_lookup_at(self@, i as int);
            }
            Some(&self.entries[i].1)
        } else {
            None
        }
    }

    /// Returns whether `k` is a key.
    pub fn contains_key(&self, k: &K) -> (b: bool)
        ensures
            b == has_key(self@, *k),
    {
        let (_, found) = self.search(k);
        found
    }

    /// Sets the value of `k` to `v`, returning the value it had.
    pub fn insert(&mut self, k: K, v: V) -> (r: Option<V>)
        ensures
            inserted(old(self)@, final(self)@, k, v),
            r == lookup(old(self)@, k),
    {
        proof {
            use_type_invariant(&*self);
        }
        let ghost before = self.entries@;
        let (i, found) = self.search(&k);
        let mut entries = Vec::new();
        std::mem::swap(&mut entries, &mut self.entries);
        if found {
            proof {
                lemma_lookup_at(before, i as int);
            }
            let (_, previous) = entries.remove(i);
            entries.insert(i, (k, v));
            let ghost after = entries@;
            assert(after == before.update(i as int, (k, v)));
            assert(keys_increasing(after)) by {
                assert forall|a: int, b: int| 0 <= a < b < after.len() implies
                    #[trigger] after[a].0.key_of() < #[trigger] after[b].0.key_of() by {
                    assert(before[a].0.key_of() < before[b].0.key_of());
                }
            }
            proof {
                lemma_lookup_at(after, i as int);
                assert forall|x: K| x != k implies lookup(after, x) == #[trigger] lookup(before, x) by {
                    if has_key(before, x) {
                        let p = key_position(before, x);
                        lemma_lookup_at(before, p);
                        lemma_lookup_at(after, p);
                    }
                    if has_key(after, x) {
                        let p = key_position(after, x);
                        lemma_lookup_at(after, p);
                        lemma_lookup_at(before, p);
                    }
                }
            }
            self.entries = entries;
            Some(previous)
        } else {
            entries.insert(i, (k, v));
            let ghost after = entries@;
            assert(after == before.insert(i as int, (k, v)));
            assert(keys_increasing(after)) by {
                assert forall|a: int, b: int| 0 <= a < b < after.len() implies
                    #[trigger] after[a].0.key_of() < #[trigger] after[b].0.key_of() by {
                    if b < i {
                        assert(before[a].0.key_of() < before[b].0.key_of());
                    } else if a > i {
                        assert(before[a - 1].0.key_of() < before[b - 1].0.key_of());
                    } else if a == i {
                        assert(before[b - 1].0.key_of() > k.key_of());
                    } else if b == i {
                        assert(before[a].0.key_of() < k.key_of());
                    } else {
                        assert(before[a].0.key_of() < k.key_of());
                        assert(before[b - 1].0.key_of() > k.key_of());
                    }
                }
            }
            proof {
                lemma_lookup_at(after, i as int);
                assert forall|x: K| x != k implies lookup(after, x) == #[trigger] lookup(before, x) by {
                    if has_key(before, x) {
                        let p = key_position(before, x);
                        lemma_lookup_at(before, p);
                        if p < i {
                            lemma_lookup_at(after, p);
                        } else {
                            lemma_lookup_at(after, p + 1);
                        }
                    }
                    if has_key(after, x) {
                        let p = key_position(after, x);
                        lemma_lookup_at(after, p);
                        if p < i {
                            lemma_lookup_at(before, p);
                        } else if p > i {
                            lemma_lookup_at(before, p - 1);
                        }
                    }
                }
            }
            self.entries = entries;
            None
        }
    }

    /// Removes `k`, returning the value it had.
    pub fn remove(&mut self, k: &K) -> (r: Option<V>)
        ensures
            removed(old(self)@, final(self)@, *k),
            r == lookup(old(self)@, *k),
    {
        proof {
            use_type_invariant(&*self);
        }
        let ghost before = self.entries@;
        let (i, found) = self.search(k);
        if found {
            proof {
                lemma_lookup_at(before, i as int);
            }
            let mut entries = Vec::new();
            std::mem::swap(&mut entries, &mut self.entries);
            let (_, previous) = entries.remove(i);
            let ghost after = entries@;
            assert(after == before.remove(i as int));
            assert(keys_increasing(after)) by {
                assert forall|a: int, b: int| 0 <= a < b < after.len() implies
                    #[trigger] after[a].0.key_of() < #[trigger] after[b].0.key_of() by {
                    if b < i {
                        assert(before[a].0.key_of() < before[b].0.key_of());
                    } else if a >= i {
                        assert(before[a + 1].0.key_of() < before[b + 1].0.key_of());
                    } else {
                        assert(before[a].0.key_of() < before[b + 1].0.key_of());
                    }
                }
            }
            proof {
                if has_key(after, *k) {
                    let p = key_position(after, *k);
                    if p < i {
                        assert(before[p].0.key_of() < before[i as int].0.key_of());
                    } else {
                        assert(before[i as int].0.key_of() < before[p + 1].0.key_of());
                    }
                }
                assert forall|x: K| x != *k implies lookup(after, x) == #[trigger] lookup(before, x) by {
                    if has_key(before, x) {
                        let p = key_position(before, x);
                        lemma_lookup_at(before, p);
                        if p < i {
                            lemma_lookup_at(after, p);
                        } else {
                            lemma_lookup_at(after, p - 1);
                        }
                    }
                    if has_key(after, x) {
                        let p = key_position(after, x);
                        lemma_lookup_at(after, p);
                        if p < i {
                            lemma_lookup_at(before, p);
                        } else {
                            lemma_lookup_at(before, p + 1);
                        }
                    }
                }
            }
            self.entries = entries;
            Some(previous)
        } else {
            None
        }
    }

    /// Removes every entry.
    pub fn clear(&mut self)
        ensures
            final(self)@ == Seq::<(K, V)>::empty(),
    {
        self.entries = Vec::new();
    }
}

impl<K: IdKey, V: Clone> Clone for IdMap<K, V> {
    fn clone(&self) -> (r: Self)
        ensures
            r@.len() == self@.len(),
            forall|i: int| 0 <= i < self@.len() ==> (#[trigger] r@[i]).0 == self@[i].0,
            forall|i: int| 0 <= i < self@.len() ==> cloned::<V>(self@[i].1, #[trigger] r@[i].1),
    {
        proof {
            use_type_invariant(self);
        }
        let mut entries: Vec<(K, V)> = Vec::new();
        let mut i: usize = 0;
        while i < self.entries.len()
            invariant
                i <= self.entries@.len(),
                entries@.len() == i,
                keys_increasing(self.entries@),
                forall|j: int| 0 <= j < i ==> (#[trigger] entries@[j]).0 == self.entries@[j].0,
                forall|j: int| 0 <= j < i ==> cloned::<V>(self.entries@[j].1, #[trigger] entries@[j].1),
            decreases self.entries@.len() - i,
        {
            let key = self.entries[i].0;
            let value = self.entries[i].1.clone();
            entries.push((key, value));
            i = i + 1;
        }
        assert(keys_increasing(entries@)) by {
            assert forall|a: int, b: int| 0 <= a < b < entries@.len() implies
                #[trigger] entries@[a].0.key_of() < #[trigger] entries@[b].0.key_of() by {
                assert(self.entries@[a].0.key_of() < self.entries@[b].0.key_of());
            }
        }
        IdMap { entries }
    }
}

impl<K: IdKey, V> IdMap<K, V> {
    /// Builds a map by inserting the given entries in order, so that a later
    /// entry for a key replaces an earlier one.
    pub fn from_entries(entries: Vec<(K, V)>) -> (r: Self)
        ensures
            forall|k: K| #[trigger] lookup(r@, k) == last_value(entries@, k),
    {
        let ghost original = entries@;
        let ghost n = original.len();
        let mut map = IdMap::new();
        let mut rest = entries;
        while rest.len() > 0
            invariant
                n == original.len(),
                rest@.len() <= n,
                rest@ =~= original.subrange(0, rest@.len() as int),
                forall|k: K| #[trigger] lookup(map@, k) == last_value(original.subrange(rest@.len() as int, n as int), k),
            decreases rest@.len(),
        {
            let ghost m = rest@.len() as int;
            let (k, v) = rest.pop().unwrap();
            proof {
                lemma_last_value_prepend(original, m - 1, n as int);
            }
            let ghost before = map@;
            if !map.contains_key(&k) {
                map.insert(k, v);
            }
            assert forall|x: K| #[trigger] lookup(map@, x) == last_value(original.subrange(m - 1, n as int), x) by {
                assert(lookup(before, x) == last_value(original.subrange(m, n as int), x));
                if x == k {
                    if has_key(before, k) {
                        assert(lookup(before, k) is Some);
                    }
                }
            }
        }
        assert(original.subrange(0, n as int) =~= original);
        map
    }
}

/// Prepending an entry to a run of entries only adds its key, if new.
proof fn lemma_last_value_prepend<K, V>(s: Seq<(K, V)>, m: int, n: int)
    requires
        0 <= m < n <= s.len(),
    ensures
        forall|k: K| #[trigger] last_value(s.subrange(m, n), k) == (match last_value(s.subrange(m + 1, n), k) {
            Some(v) => Some(v),
            None => if s[m].0 == k { Some(s[m].1) } else { None },
        }),
    decreases n - m,
{
    assert forall|k: K| #[trigger] last_value(s.subrange(m, n), k) == (match last_value(s.subrange(m + 1, n), k) {
        Some(v) => Some(v),
        None => if s[m].0 == k { Some(s[m].1) } else { None },
    }) by {
        if n == m + 1 {
            assert(s.subrange(m, n).drop_last() =~= Seq::<(K, V)>::empty());
            assert(s.subrange(m + 1, n) =~= Seq::<(K, V)>::empty());
        } else {
            lemma_last_value_prepend(s, m, n - 1);
            assert(s.subrange(m, n).drop_last() =~= s.subrange(m, n - 1));
            assert(s.subrange(m + 1, n).drop_last() =~= s.subrange(m + 1, n - 1));
        }
    }
}

/// The value of the last entry of `s` with key `k`, if any.
pub open spec fn last_value<K, V>(s: Seq<(K, V)>, k: K) -> Option<V>
    decreases s.len(),
{
    if s.len() == 0 {
        None
    } else if s.last().0 == k {
        Some(s.last().1)
    } else {
        last_value(s.drop_last(), k)
    }
}

/// In a key-ordered sequence, dropping the last entry forgets only its key.
proof fn lemma_lookup_drop_last<K: IdKey, V>(s: Seq<(K, V)>, k: K)
    requires
        keys_increasing(s),
        s.len() > 0,
    ensures
        lookup(s.drop_last(), k) == (if k == s.last().0 { None } else { lookup(s, k) }),
{
    let t = s.drop_last();
    let n = s.len() - 1;
    assert(s.last() == s[n]);
    if has_key(t, k) {
        let i = key_position(t, k);
        assert(t[i] == s[i]);
        assert(keys_increasing(t));
        lemma_lookup_at(t, i);
        lemma_lookup_at(s, i);
        if k == s.last().0 {
            assert(s[i].0.key_of() < s[n].0.key_of());
        }
    } else {
        if k != s.last().0 && has_key(s, k) {
            let i = key_position(s, k);
            assert(i != n);
            assert(t[i] == s[i]);
        }
        if k == s.last().0 {
            lemma_lookup_at(s, n);
        }
    }
}

/// Two key-ordered sequences that hold the same value for every key are equal.
pub proof fn lemma_same_lookups<K: IdKey, V>(s: Seq<(K, V)>, t: Seq<(K, V)>)
    requires
        keys_increasing(s),
        keys_increasing(t),
        forall|k: K| #[trigger] lookup(s, k) == lookup(t, k),
    ensures
        s == t,
    decreases s.len(),
{
    if s.len() == 0 {
        if t.len() > 0 {
            lemma_lookup_at(t, 0);
            assert(lookup(s, t[0].0) == lookup(t, t[0].0));
        }
        assert(s =~= t);
    } else {
        if t.len() == 0 {
            lemma_lookup_at(s, 0);
            assert(lookup(s, s[0].0) == lookup(t, s[0].0));
        }
        let n = s.len() - 1;
        let m = t.len() - 1;
        lemma_lookup_at(s, n);
        lemma_lookup_at(t, m);
        let ks = s[n].0;
        let kt = t[m].0;
        assert(lookup(t, ks) == lookup(s, ks));
        assert(lookup(s, kt) == lookup(t, kt));
        let i = key_position(s, kt);
        let j = key_position(t, ks);
        if ks != kt {
            if i != n {
                assert(s[i].0.key_of() < s[n].0.key_of());
            }
            if j != m {
                assert(t[j].0.key_of() < t[m].0.key_of());
            }
            assert(false);
        }
        assert(s.last() == t.last());
        assert forall|k: K| #[trigger] lookup(s.drop_last(), k) == lookup(t.drop_last(), k) by {
            lemma_lookup_drop_last(s, k);
            lemma_lookup_drop_last(t, k);
        }
        assert(keys_increasing(s.drop_last()));
        assert(keys_increasing(t.drop_last()));
        lemma_same_lookups(s.drop_last(), t.drop_last());
        assert(s =~= s.drop_last().push(s.last()));
        assert(t =~= t.drop_last().push(t.last()));
    }
}

} // verus!
