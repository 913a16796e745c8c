//! An insertion-ordered association map with a `Map` view.
//!
//! The simulator keys its tables by ASNs and prefixes and needs a stable,
//! deterministic iteration order, so the map is a vector of key-value pairs
//! with unique keys. Contracts speak of the abstract `Map` from keys to the
//! values' views.

use vstd::prelude::*;

verus! {

/// A key type that can decide its own equality.
pub trait MapKey: Sized + Copy {
    fn key_eq(&self, other: &Self) -> (r: bool)
        ensures
            r == (*self == *other),
    ;
}

impl MapKey for u32 {
    fn key_eq(&self, other: &u32) -> (r: bool)
        ensures
            r == (*self == *other),
    {
        *self == *other
    }
}

impl MapKey for crate::prefix::Prefix {
    fn key_eq(&self, other: &crate::prefix::Prefix) -> (r: bool)
        ensures
            r == (*self == *other),
    {
        *self == *other
    }
}

/// The abstract map described by a sequence of key-value pairs, later
/// entries winning.
pub open spec fn entries_map<K, V: View>(s: Seq<(K, V)>) -> Map<K, V::V>
    decreases s.len(),
{
    if s.len() == 0 {
        Map::empty()
    } else {
        entries_map(s.drop_last()).insert(s.last().0, s.last().1@)
    }
}

/// All keys of a pair sequence are distinct.
pub open spec fn unique_keys<K, V>(s: Seq<(K, V)>) -> bool {
    forall|i: int, j: int| 0 <= i < j < s.len() ==> (#[trigger] s[i]).0 != (#[trigger] s[j]).0
}

/// A key is in the abstract map exactly when some entry holds it.
pub proof fn lemma_entries_map_domain<K, V: View>(s: Seq<(K, V)>, k: K)
    ensures
        entries_map(s).contains_key(k) <==> exists|i: int| 0 <= i < s.len() && (#[trigger] s[i]).0
            == k,
    decreases s.len(),
{
    if s.len() > 0 {
        lemma_entries_map_domain(s.drop_last(), k);
        if s.last().0 == k {
            assert(s[s.len() - 1].0 == k);
        } else if entries_map(s).contains_key(k) {
            let i = choose|i: int| 0 <= i < s.drop_last().len() && (#[trigger] s.drop_last()[i]).0
                == k;
            assert(s[i].0 == k);
        } else {
            if exists|i: int| 0 <= i < s.len() && (#[trigger] s[i]).0 == k {
                let i = choose|i: int| 0 <= i < s.len() && (#[trigger] s[i]).0 == k;
                assert(s.drop_last()[i].0 == k);
            }
        }
    }
}

/// With unique keys, the entry holding a key gives the map's value at it.
pub proof fn lemma_entries_map_at<K, V: View>(s: Seq<(K, V)>, i: int)
    requires
        unique_keys(s),
        0 <= i < s.len(),
    ensures
        entries_map(s).contains_key(s[i].0),
        entries_map(s)[s[i].0] == s[i].1@,
    decreases s.len(),
{
    lemma_entries_map_domain(s, s[i].0);
    if i < s.len() - 1 {
        assert(s[i].0 != s.last().0);
        assert(s.drop_last()[i] == s[i]);
        lemma_entries_map_at(s.drop_last(), i);
    }
}

/// With unique keys, overwriting the entry that holds a key updates the map
/// at that key alone.
pub proof fn lemma_entries_map_update<K, V: View>(s: Seq<(K, V)>, i: int, v: V)
    requires
        unique_keys(s),
        0 <= i < s.len(),
    ensures
        entries_map(s.update(i, (s[i].0, v))) =~= entries_map(s).insert(s[i].0, v@),
    decreases s.len(),
{
    let k = s[i].0;
    let t = s.update(i, (k, v));
    if i == s.len() - 1 {
        assert(t.drop_last() =~= s.drop_last());
        assert(t.last() == (k, v));
    } else {
        assert(t.drop_last() =~= s.drop_last().update(i, (k, v)));
        assert(s.drop_last()[i] == s[i]);
        lemma_entries_map_update(s.drop_last(), i, v);
        assert(t.last() == s.last());
        assert(k != s.last().0);
    }
}

/// Appending a pair with a fresh key inserts it into the map.
pub proof fn lemma_entries_map_push<K, V: View>(s: Seq<(K, V)>, k: K, v: V)
    ensures
        entries_map(s.push((k, v))) =~= entries_map(s).insert(k, v@),
{
    assert(s.push((k, v)).drop_last() =~= s);
}

/// With unique keys, removing the entry that holds a key removes the key
/// from the map.
pub proof fn lemma_entries_map_remove<K, V: View>(s: Seq<(K, V)>, i: int)
    requires
        unique_keys(s),
        0 <= i < s.len(),
    ensures
        entries_map(s.remove(i)) =~= entries_map(s).remove(s[i].0),
    decreases s.len(),
{
    let k = s[i].0;
    let t = s.remove(i);
    if i == s.len() - 1 {
        assert(t =~= s.drop_last());
        lemma_entries_map_domain(s.drop_last(), k);
        assert forall|j: int| 0 <= j < s.drop_last().len() implies (#[trigger] s.drop_last()[j]).0
            != k by {
            assert(s[j] == s.drop_last()[j]);
        }
        assert(!entries_map(s.drop_last()).contains_key(k));
        assert(entries_map(s) =~= entries_map(s.drop_last()).insert(k, s.last().1@));
        assert(entries_map(s).remove(k) =~= entries_map(s.drop_last()));
    } else {
        assert(t.drop_last() =~= s.drop_last().remove(i));
        assert(s.drop_last()[i] == s[i]);
        lemma_entries_map_remove(s.drop_last(), i);
        assert(t.last() == s.last());
        assert(k != s.last().0);
    }
}

/// An insertion-ordered map from keys to values.
#[derive(Debug, Clone)]
pub struct AssocMap<K: MapKey, V: View> {
    entries: Vec<(K, V)>,
}

impl<K: MapKey, V: View> View for AssocMap<K, V> {
    type V = Map<K, V::V>;

    closed spec fn view(&self) -> Map<K, V::V> {
        entries_map(self.entries@)
    }
}


/// For every replacement value, overwriting the entry that holds a key
/// updates the map at that key alone and keeps the keys distinct.
pub proof fn lemma_entries_map_update_any<K, V: View>(s: Seq<(K, V)>, i: int)
    requires
        unique_keys(s),
        0 <= i < s.len(),
    ensures
        forall|v: V| #[trigger] entries_map(s.update(i, (s[i].0, v))) =~= entries_map(s).insert(
            s[i].0,
            v@,
        ),
        forall|p: (K, V)|
            p.0 == s[i].0 ==> unique_keys(#[trigger] s.update(i, p)) && entries_map(s.update(i, p))
                =~= entries_map(s).insert(s[i].0, p.1@),
{
    assert forall|v: V| #[trigger] entries_map(s.update(i, (s[i].0, v))) =~= entries_map(s).insert(
        s[i].0,
        v@,
    ) by {
        lemma_entries_map_update(s, i, v);
    }
    assert forall|p: (K, V)| p.0 == s[i].0 implies unique_keys(#[trigger] s.update(i, p))
        && entries_map(s.update(i, p)) =~= entries_map(s).insert(s[i].0, p.1@) by {
        lemma_entries_map_update(s, i, p.1);
        assert(s.update(i, (s[i].0, p.1)) =~= s.update(i, p));
        assert forall|a: int, b: int| 0 <= a < b < s.update(i, p).len() implies (#[trigger] s.update(
            i,
            p,
        )[a]).0 != (#[trigger] s.update(i, p)[b]).0 by {
            assert(s[a].0 != s[b].0);
        }
    }
}

impl<K: MapKey, V: View> AssocMap<K, V> {
    /// The underlying entry sequence, for contracts about iteration order.
    pub closed spec fn pairs(&self) -> Seq<(K, V)> {
        self.entries@
    }

    /// The invariant: all keys distinct.
    pub open spec fn wf(&self) -> bool {
        unique_keys(self.pairs())
    }

    /// Ground link between the entry sequence, the view and the invariant.
    proof fn bridge(&self)
        ensures
            self.pairs() == self.entries@,
            self@ == entries_map(self.entries@),
            self.wf() == unique_keys(self.entries@),
    {
    }

    /// The entry sequence agrees with the map view.
    pub proof fn lemma_entry_in_view(&self, i: int)
        requires
            self.wf(),
            0 <= i < self.pairs().len(),
        ensures
            self@.contains_key(self.pairs()[i].0),
            self@[self.pairs()[i].0] == self.pairs()[i].1@,
    {
        lemma_entries_map_at(self.entries@, i);
    }

    /// A key in the map view is held by some entry.
    pub proof fn lemma_view_in_entries(&self, k: K)
        requires
            self@.contains_key(k),
        ensures
            exists|i: int| 0 <= i < self.pairs().len() && (#[trigger] self.pairs()[i]).0 == k,
    {
        self.bridge();
        lemma_entries_map_domain(self.entries@, k);
    }

    /// An empty map.
    pub fn new() -> (r: AssocMap<K, V>)
        ensures
            r@ =~= Map::<K, V::V>::empty(),
            r.wf(),
            r.pairs() =~= Seq::<(K, V)>::empty(),
    {
        AssocMap { entries: Vec::new() }
    }

    /// Number of entries.
    pub fn len(&self) -> (r: usize)
        ensures
            r == self.pairs().len(),
    {
        self.entries.len()
    }

    /// Whether the map has no entries.
    pub fn is_empty(&self) -> (r: bool)
        ensures
            r == (self.pairs().len() == 0),
            r ==> self@ =~= Map::<K, V::V>::empty(),
            !r ==> exists|k: K| self@.contains_key(k),
    {
        proof {
            self.bridge();
            if self.entries@.len() == 0 {
                assert(self@ =~= Map::<K, V::V>::empty());
            } else {
                lemma_entries_map_domain(self.entries@, self.entries@[0].0);
                assert(self@.contains_key(self.entries@[0].0));
            }
        }
        self.entries.len() == 0
    }

    /// The index of the entry holding a key, if any.
    fn find_index(&self, k: &K) -> (r: Option<usize>)
        ensures
            match r {
                Some(i) => i < self.pairs().len() && self.pairs()[i as int].0 == *k,
                None => forall|i: int|
                    0 <= i < self.pairs().len() ==> (#[trigger] self.pairs()[i]).0 != *k,
            },
    {
        proof {
            self.bridge();
        }
        let mut i: usize = 0;
        while i < self.entries.len()
            invariant
                i <= self.entries@.len(),
                forall|j: int| 0 <= j < i ==> (#[trigger] self.entries@[j]).0 != *k,
            decreases self.entries@.len() - i,
        {
            if self.entries[i].0.key_eq(k) {
                return Some(i);
            }
            i = i + 1;
        }
        None
    }

    /// Whether a key is present.
    pub fn contains_key(&self, k: &K) -> (r: bool)
        ensures
            r == self@.contains_key(*k),
    {
        proof {
            self.bridge();
            lemma_entries_map_domain(self.entries@, *k);
        }
        match self.find_index(k) {
            Some(_) => true,
            None => false,
        }
    }

    /// The value at a key.
    pub fn get(&self, k: &K) -> (r: Option<&V>)
        requires
            self.wf(),
        ensures
            match r {
                Some(v) => self@.contains_key(*k) && v@ == self@[*k] && exists|j: int|
                    0 <= j < self.pairs().len() && #[trigger] self.pairs()[j] == (*k, *v),
                None => !self@.contains_key(*k),
            },
    {
        proof {
            self.bridge();
            lemma_entries_map_domain(self.entries@, *k);
        }
        match self.find_index(k) {
            Some(i) => {
                proof {
                    lemma_entries_map_at(self.entries@, i as int);
                }
                Some(&self.entries[i].1)
            },
            None => None,
        }
    }

    /// A mutable borrow of the value at a key; the final map holds whatever
    /// the caller leaves behind the borrow.
    pub fn get_mut(&mut self, k: &K) -> (r: Option<&mut V>)
        requires
            old(self).wf(),
        ensures
            final(self).wf(),
            match r {
                Some(v) => {
                    &&& old(self)@.contains_key(*k)
                    &&& (*v)@ == old(self)@[*k]
                    &&& final(self)@ =~= old(self)@.insert(*k, final(v)@)
                    &&& final(self).pairs().len() == old(self).pairs().len()
                    &&& forall|i: int|
                        0 <= i < final(self).pairs().len() ==> (#[trigger] final(self).pairs()[i]).0 == old(self).pairs()[i].0
                    &&& exists|j: int|
                        0 <= j < old(self).pairs().len() && #[trigger] old(self).pairs()[j] == (
                        *k,
                        *v,
                        )
                    &&& forall|i: int|
                        0 <= i < final(self).pairs().len() ==> (#[trigger] final(self).pairs()[i] == old(self).pairs()[i] || final(self).pairs()[i] == (
                        *k,
                        *final(v),
                        ))
                },
                None => {
                    &&& !old(self)@.contains_key(*k)
                    &&& final(self)@ == old(self)@
                    &&& final(self).pairs() == old(self).pairs()
                },
            },
    {
        proof {
            self.bridge();
            lemma_entries_map_domain(self.entries@, *k);
        }
        match self.find_index(k) {
            Some(i) => {
                proof {
                    lemma_entries_map_at(self.entries@, i as int);
                    lemma_entries_map_update_any(self.entries@, i as int);
                }
                let entry = &mut self.entries[i];
                Some(&mut entry.1)
            },
            None => None,
        }
    }

    /// Insert a value at a key, replacing any previous value; a fresh key is
    /// appended at the end of the iteration order.
    pub fn insert(&mut self, k: K, v: V)
        requires
            old(self).wf(),
        ensures
            final(self).wf(),
            final(self)@ =~= old(self)@.insert(k, v@),
            final(self).pairs().len() <= old(self).pairs().len() + 1,
            forall|i: int|
                0 <= i < final(self).pairs().len() ==> ((#[trigger] final(self).pairs()[i]) == (
                k,
                v,
                ) || exists|j: int|
                    0 <= j < old(self).pairs().len() && old(self).pairs()[j] == final(self).pairs()[i]),
    {
        proof {
            self.bridge();
            lemma_entries_map_domain(self.entries@, k);
        }
        match self.find_index(&k) {
            Some(i) => {
                proof {
                    lemma_entries_map_update(self.entries@, i as int, v);
                    let s = self.entries@;
                    let t = s.update(i as int, (k, v));
                    assert forall|a: int, b: int| 0 <= a < b < t.len() implies (#[trigger] t[a]).0
                        != (#[trigger] t[b]).0 by {
                        assert(s[a].0 != s[b].0);
                    }
                }
                self.entries[i] = (k, v);
            },
            None => {
                proof {
                    lemma_entries_map_push(self.entries@, k, v);
                    let s = self.entries@;
                    let t = s.push((k, v));
                    assert forall|a: int, b: int| 0 <= a < b < t.len() implies (#[trigger] t[a]).0
                        != (#[trigger] t[b]).0 by {
                        if b < s.len() {
                            assert(s[a].0 != s[b].0);
                        } else {
                            assert(t[a] == s[a]);
                        }
                    }
                }
                self.entries.push((k, v));
            },
        }
    }

    /// Remove a key and its value, if present.
    pub fn remove(&mut self, k: &K)
        requires
            old(self).wf(),
        ensures
            final(self).wf(),
            final(self)@ =~= old(self)@.remove(*k),
            forall|i: int|
                0 <= i < final(self).pairs().len() ==> exists|j: int|
                    0 <= j < old(self).pairs().len() && old(self).pairs()[j] == (#[trigger] final(self).pairs()[i]),
    {
        proof {
            self.bridge();
            lemma_entries_map_domain(self.entries@, *k);
        }
        match self.find_index(k) {
            Some(i) => {
                proof {
                    lemma_entries_map_remove(self.entries@, i as int);
                    let s = self.entries@;
                    let t = s.remove(i as int);
                    assert forall|a: int, b: int| 0 <= a < b < t.len() implies (#[trigger] t[a]).0
                        != (#[trigger] t[b]).0 by {
                        if a < i && b < i {
                            assert(t[a] == s[a] && t[b] == s[b]);
                            assert(s[a].0 != s[b].0);
                        } else if a < i {
                            assert(t[a] == s[a] && t[b] == s[b + 1]);
                            assert(s[a].0 != s[b + 1].0);
                        } else {
                            assert(t[a] == s[a + 1] && t[b] == s[b + 1]);
                            assert(s[a + 1].0 != s[b + 1].0);
                        }
                    }
                }
                self.entries.remove(i);
            },
            None => {
                proof {
                    assert(!self@.contains_key(*k));
                    assert(self@ =~= self@.remove(*k));
                }
            },
        }
    }

    /// Drop every entry.
    pub fn clear(&mut self)
        ensures
            final(self)@ =~= Map::<K, V::V>::empty(),
            final(self).wf(),
            final(self).pairs() =~= Seq::<(K, V)>::empty(),
    {
        self.entries.clear();
    }

    /// The key of the entry at an index.
    pub fn key_at(&self, i: usize) -> (r: K)
        requires
            i < self.pairs().len(),
        ensures
            r == self.pairs()[i as int].0,
    {
        proof {
            self.bridge();
        }
        self.entries[i].0
    }

    /// The value of the entry at an index.
    pub fn value_at(&self, i: usize) -> (r: &V)
        requires
            i < self.pairs().len(),
        ensures
            *r == self.pairs()[i as int].1,
    {
        proof {
            self.bridge();
        }
        &self.entries[i].1
    }

    /// All keys, in iteration order.
    pub fn keys(&self) -> (r: Vec<K>)
        ensures
            r@.len() == self.pairs().len(),
            forall|i: int| 0 <= i < r@.len() ==> r@[i] == self.pairs()[i].0,
    {
        proof {
            self.bridge();
        }
        let mut r: Vec<K> = Vec::new();
        let mut i: usize = 0;
        while i < self.entries.len()
            invariant
                i <= self.entries@.len(),
                r@.len() == i,
                forall|j: int| 0 <= j < i ==> r@[j] == self.entries@[j].0,
            decreases self.entries@.len() - i,
        {
            r.push(self.entries[i].0);
            i = i + 1;
        }
        r
    }
}

} // verus!
