//! A small association map, used for the world's resources, names and tags.
use vstd::prelude::*;

verus! {

/// A key type with an executable equality that agrees with equality of its
/// view.
pub trait TableKey: Sized {
    type KeyView;

    spec fn key_view(&self) -> Self::KeyView;

    fn same_key(&self, other: &Self) -> (r: bool)
        ensures
            r == (self.key_view() == other.key_view()),
    ;
}

impl TableKey for u64 {
    type KeyView = u64;

    open spec fn key_view(&self) -> u64 {
        *self
    }

    fn same_key(&self, other: &Self) -> (r: bool) {
        *self == *other
    }
}

impl TableKey for u32 {
    type KeyView = u32;

    open spec fn key_view(&self) -> u32 {
        *self
    }

    fn same_key(&self, other: &Self) -> (r: bool) {
        *self == *other
    }
}

impl TableKey for String {
    type KeyView = Seq<char>;

    open spec fn key_view(&self) -> Seq<char> {
        self@
    }

    fn same_key(&self, other: &Self) -> (r: bool) {
        *self == *other
    }
}

/// One key/value pair of a [`KeyTable`].
pub struct KeyEntry<K, V> {
    pub key: K,
    pub value: V,
}

/// A map stored as a list of entries with pairwise distinct keys.
pub struct KeyTable<K, V> {
    entries: Vec<KeyEntry<K, V>>,
}

/// Keys of `s` are pairwise distinct.
pub open spec fn entries_wf<K: TableKey, V>(s: Seq<KeyEntry<K, V>>) -> bool {
    forall|i: int, j: int|
        0 <= i < s.len() && 0 <= j < s.len() && i != j ==> s[i].key.key_view()
            != s[j].key.key_view()
}

/// `s` read as a map.
pub open spec fn entries_view<K: TableKey, V>(s: Seq<KeyEntry<K, V>>) -> Map<K::KeyView, V> {
    Map::new(
        |k: K::KeyView| exists|i: int| 0 <= i < s.len() && s[i].key.key_view() == k,
        |k: K::KeyView| s[choose|i: int| 0 <= i < s.len() && s[i].key.key_view() == k].value,
    )
}

pub proof fn lemma_entries_view_at<K: TableKey, V>(s: Seq<KeyEntry<K, V>>, i: int)
    requires
        entries_wf(s),
        0 <= i < s.len(),
    ensures
        entries_view(s).contains_key(s[i].key.key_view()),
        entries_view(s)[s[i].key.key_view()] == s[i].value,
{
    let k = s[i].key.key_view();
    assert(exists|j: int| 0 <= j < s.len() && s[j].key.key_view() == k);
    let c = choose|j: int| 0 <= j < s.len() && s[j].key.key_view() == k;
    assert(c == i);
}

pub proof fn lemma_entries_view_has<K: TableKey, V>(s: Seq<KeyEntry<K, V>>, k: K::KeyView) -> (i: int)
    requires
        entries_wf(s),
        entries_view(s).contains_key(k),
    ensures
        0 <= i < s.len(),
        s[i].key.key_view() == k,
        entries_view(s)[k] == s[i].value,
{
    let i = choose|j: int| 0 <= j < s.len() && s[j].key.key_view() == k;
    lemma_entries_view_at(s, i);
    i
}

/// Replacing an entry by one with the same key updates that key.
proof fn lemma_entries_replace<K: TableKey, V>(s: Seq<KeyEntry<K, V>>, i: int, e: KeyEntry<K, V>)
    requires
        entries_wf(s),
        0 <= i < s.len(),
        e.key.key_view() == s[i].key.key_view(),
    ensures
        entries_wf(s.update(i, e)),
        entries_view(s.update(i, e)) == entries_view(s).insert(e.key.key_view(), e.value),
{
    let t = s.update(i, e);
    let m = entries_view(s).insert(e.key.key_view(), e.value);
    assert forall|k: K::KeyView| #[trigger] entries_view(t).contains_key(k) == m.contains_key(k) by {
        if entries_view(s).contains_key(k) {
            let j = lemma_entries_view_has(s, k);
            assert(t[j].key.key_view() == k);
        }
        if entries_view(t).contains_key(k) {
            let j = choose|j: int| 0 <= j < t.len() && t[j].key.key_view() == k;
            assert(s[j].key.key_view() == k);
        }
        assert(t[i].key.key_view() == e.key.key_view());
    }
    assert forall|k: K::KeyView| #[trigger] entries_view(t).contains_key(k) implies entries_view(
        t,
    )[k] == m[k] by {
        let j = lemma_entries_view_has(t, k);
        if j != i {
            lemma_entries_view_at(s, j);
        }
    }
    assert(entries_view(t) =~= m);
}

/// Appending an entry with a new key adds that key.
pub proof fn lemma_entries_push<K: TableKey, V>(s: Seq<KeyEntry<K, V>>, e: KeyEntry<K, V>)
    requires
        entries_wf(s),
        !entries_view(s).contains_key(e.key.key_view()),
    ensures
        entries_wf(s.push(e)),
        entries_view(s.push(e)) == entries_view(s).insert(e.key.key_view(), e.value),
{
    let t = s.push(e);
    let n = s.len() as int;
    let m = entries_view(s).insert(e.key.key_view(), e.value);
    assert forall|i: int, j: int|
        0 <= i < t.len() && 0 <= j < t.len() && i != j implies t[i].key.key_view()
        != t[j].key.key_view() by {
        if i == n {
            assert(entries_view(s).contains_key(s[j].key.key_view())) by {
                lemma_entries_view_at(s, j);
            }
        } else if j == n {
            assert(entries_view(s).contains_key(s[i].key.key_view())) by {
                lemma_entries_view_at(s, i);
            }
        }
    }
    assert forall|k: K::KeyView| #[trigger] entries_view(t).contains_key(k) == m.contains_key(k) by {
        if entries_view(s).contains_key(k) {
            let j = lemma_entries_view_has(s, k);
            assert(t[j].key.key_view() == k);
        }
        if entries_view(t).contains_key(k) {
            let j = choose|j: int| 0 <= j < t.len() && t[j].key.key_view() == k;
            if j < n {
                assert(s[j].key.key_view() == k);
            }
        }
        assert(t[n].key.key_view() == e.key.key_view());
    }
    assert forall|k: K::KeyView| #[trigger] entries_view(t).contains_key(k) implies entries_view(
        t,
    )[k] == m[k] by {
        let j = lemma_entries_view_has(t, k);
        if j != n {
            lemma_entries_view_at(s, j);
        }
    }
    assert(entries_view(t) =~= m);
}

/// Swap-removing entry `i` removes its key.
proof fn lemma_entries_swap_remove<K: TableKey, V>(s: Seq<KeyEntry<K, V>>, i: int)
    requires
        entries_wf(s),
        0 <= i < s.len(),
    ensures
        entries_wf(s.update(i, s.last()).drop_last()),
        entries_view(s.update(i, s.last()).drop_last()) == entries_view(s).remove(
            s[i].key.key_view(),
        ),
{
    let t = s.update(i, s.last()).drop_last();
    let n = s.len() - 1;
    let m = entries_view(s).remove(s[i].key.key_view());
    assert forall|a: int, b: int|
        0 <= a < t.len() && 0 <= b < t.len() && a != b implies t[a].key.key_view()
        != t[b].key.key_view() by {
        if a == i {
            assert(s[n].key.key_view() != s[b].key.key_view());
        } else if b == i {
            assert(s[a].key.key_view() != s[n].key.key_view());
        }
    }
    assert forall|k: K::KeyView| #[trigger] entries_view(t).contains_key(k) == m.contains_key(k) by {
        if entries_view(t).contains_key(k) {
            let j = choose|j: int| 0 <= j < t.len() && t[j].key.key_view() == k;
            if j == i {
                assert(s[n].key.key_view() == k);
                assert(s[i].key.key_view() != s[n].key.key_view());
                lemma_entries_view_at(s, n);
            } else {
                assert(s[j].key.key_view() == k);
                assert(s[i].key.key_view() != s[j].key.key_view());
                lemma_entries_view_at(s, j);
            }
        }
        if m.contains_key(k) {
            let j = lemma_entries_view_has(s, k);
            assert(j != i);
            if j == n {
                assert(t[i].key.key_view() == k);
            } else {
                assert(t[j].key.key_view() == k);
            }
        }
    }
    assert forall|k: K::KeyView| #[trigger] entries_view(t).contains_key(k) implies entries_view(
        t,
    )[k] == m[k] by {
        let j = lemma_entries_view_has(t, k);
        if j == i {
            lemma_entries_view_at(s, n);
        } else {
            lemma_entries_view_at(s, j);
        }
    }
    assert(entries_view(t) =~= m);
}

impl<K: TableKey, V> KeyTable<K, V> {
    /// Keys are pairwise distinct.
    pub closed spec fn wf(&self) -> bool {
        entries_wf(self.entries@)
    }

    /// The table as a map.
    pub closed spec fn view(&self) -> Map<K::KeyView, V> {
        entries_view(self.entries@)
    }

    /// The entries in storage order.
    pub closed spec fn entries(&self) -> Seq<KeyEntry<K, V>> {
        self.entries@
    }

    pub proof fn lemma_view_finite(&self)
        requires
            self.wf(),
        ensures
            self.view().dom().finite(),
            self.view().dom().len() == self.entries().len(),
    {
        self.lemma_dom_finite_seq(self.entries@);
    }

    proof fn lemma_dom_finite_seq(&self, s: Seq<KeyEntry<K, V>>)
        requires
            entries_wf(s),
        ensures
            entries_view(s).dom().finite(),
            entries_view(s).dom().len() == s.len(),
        decreases s.len(),
    {
        if s.len() == 0 {
            assert(entries_view(s).dom() =~= Set::empty());
        } else {
            let p = s.drop_last();
            assert(entries_wf(p));
            self.lemma_dom_finite_seq(p);
            assert(!entries_view(p).contains_key(s.last().key.key_view())) by {
                if entries_view(p).contains_key(s.last().key.key_view()) {
                    let j = lemma_entries_view_has(p, s.last().key.key_view());
                    assert(s[j].key.key_view() == s[s.len() - 1].key.key_view());
                }
            }
            lemma_entries_push(p, s.last());
            assert(p.push(s.last()) =~= s);
        }
    }

    pub fn new() -> (t: Self)
        ensures
            t.wf(),
            t.view() == Map::<K::KeyView, V>::empty(),
            t.entries().len() == 0,
    {
        let t = KeyTable { entries: Vec::new() };
        assert(t.view() =~= Map::<K::KeyView, V>::empty());
        t
    }

    fn find(&self, key: &K) -> (r: Option<usize>)
        requires
            self.wf(),
        ensures
            match r {
                Some(i) => {
                    &&& i < self.entries@.len()
                    &&& self.entries@[i as int].key.key_view() == key.key_view()
                    &&& self.view().contains_key(key.key_view())
                    &&& self.view()[key.key_view()] == self.entries@[i as int].value
                },
                None => !self.view().contains_key(key.key_view()),
            },
    {
        let mut i: usize = 0;
        while i < self.entries.len()
            invariant
                i <= self.entries@.len(),
                self.wf(),
                forall|j: int| 0 <= j < i ==> self.entries@[j].key.key_view() != key.key_view(),
            decreases self.entries@.len() - i,
        {
            if self.entries[i].key.same_key(key) {
                proof {
                    lemma_entries_view_at(self.entries@, i as int);
                }
                return Some(i);
            }
            i = i + 1;
        }
        None
    }

    /// Whether a value is stored under `key`.
    pub fn contains_key(&self, key: &K) -> (r: bool)
        requires
            self.wf(),
        ensures
            r == self.view().contains_key(key.key_view()),
    {
        self.find(key).is_some()
    }

    /// Store `value` under `key`, replacing any value already there.
    pub fn insert(&mut self, key: K, value: V)
        requires
            old(self).wf(),
        ensures
            final(self).wf(),
            final(self).view() == old(self).view().insert(key.key_view(), value),
    {
        match self.find(&key) {
            Some(i) => {
                proof {
                    lemma_entries_replace(self.entries@, i as int, KeyEntry { key, value });
                }
                self.entries.set(i, KeyEntry { key, value });
            },
            None => {
                proof {
                    lemma_entries_push(self.entries@, KeyEntry { key, value });
                }
                self.entries.push(KeyEntry { key, value });
            },
        }
    }

    /// The value stored under `key`, if any.
    pub fn get(&self, key: &K) -> (r: Option<&V>)
        requires
            self.wf(),
        ensures
            match r {
                Some(v) => self.view().contains_key(key.key_view()) && *v == self.view()[key.key_view()],
                None => !self.view().contains_key(key.key_view()),
            },
    {
        match self.find(key) {
            Some(i) => Some(&self.entries[i].value),
            None => None,
        }
    }

    /// Mutable access to the value stored under `key`, if any.
    pub fn get_mut(&mut self, key: &K) -> (r: Option<&mut V>)
        requires
            old(self).wf(),
        ensures
            final(self).wf(),
            match r {
                Some(v) => {
                    &&& old(self).view().contains_key(key.key_view())
                    &&& *v == old(self).view()[key.key_view()]
                    &&& final(self).view() == old(self).view().insert(key.key_view(), *final(v))
                },
                None => {
                    &&& !old(self).view().contains_key(key.key_view())
                    &&& final(self).view() == old(self).view()
                },
            },
    {
        match self.find(key) {
            Some(i) => {
                let ghost before = self.entries@;
                let entry = &mut self.entries[i];
                let r = &mut entry.value;
                proof {
                    lemma_entries_replace(
                        before,
                        i as int,
                        KeyEntry { key: before[i as int].key, value: *final(r) },
                    );
                }
                Some(r)
            },
            None => None,
        }
    }

    /// Remove and return the value stored under `key`, if any.
    pub fn remove(&mut self, key: &K) -> (r: Option<V>)
        requires
            old(self).wf(),
        ensures
            final(self).wf(),
            final(self).view() == old(self).view().remove(key.key_view()),
            match r {
                Some(v) => old(self).view().contains_key(key.key_view()) && v == old(
                    self,
                ).view()[key.key_view()],
                None => !old(self).view().contains_key(key.key_view()),
            },
    {
        match self.find(key) {
            Some(i) => {
                proof {
                    lemma_entries_swap_remove(self.entries@, i as int);
                }
                let entry = self.entries.swap_remove(i);
                Some(entry.value)
            },
            None => {
                assert(old(self).view().remove(key.key_view()) =~= old(self).view());
                None
            },
        }
    }

    /// Remove every entry.
    pub fn clear(&mut self)
        ensures
            final(self).wf(),
            final(self).view() == Map::<K::KeyView, V>::empty(),
    {
        self.entries.clear();
        assert(self.view() =~= Map::<K::KeyView, V>::empty());
    }

    /// The storage order lists each key once, and reads as the table's map.
    pub proof fn lemma_entries(&self)
        requires
            self.wf(),
        ensures
            entries_wf(self.entries()),
            entries_view(self.entries()) == self.view(),
            self.view().dom().len() == self.entries().len(),
    {
        self.lemma_view_finite();
    }

    /// The entry at position `i` of the storage order.
    pub fn entry(&self, i: usize) -> (r: &KeyEntry<K, V>)
        requires
            i < self.entries().len(),
        ensures
            *r == self.entries()[i as int],
    {
        &self.entries[i]
    }

    /// Gives up the table for its entries, in storage order.
    pub fn into_entries(self) -> (r: Vec<KeyEntry<K, V>>)
        ensures
            r@ == self.entries(),
    {
        self.entries
    }

    /// Number of entries.
    pub fn len(&self) -> (r: usize)
        requires
            self.wf(),
        ensures
            r == self.view().dom().len(),
            r == self.entries().len(),
    {
        proof {
            self.lemma_view_finite();
        }
        self.entries.len()
    }
}

} // verus!
