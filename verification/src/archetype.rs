//! Archetypes: tables of entities that share one set of component kinds.
//!
//! An archetype is identified by its key, the strictly increasing list of the
//! component kinds its entities carry. It stores one column per kind, all of
//! them parallel to the list of entities: row `r` of every column belongs to
//! `entities[r]`.
use vstd::prelude::*;

use crate::entity::Entity;

verus! {

/// Identifier of a component or resource kind.
pub type TypeKey = u64;

/// `s` is strictly increasing.
pub open spec fn sorted_strict(s: Seq<u64>) -> bool {
    forall|i: int, j: int| 0 <= i < j < s.len() ==> s[i] < s[j]
}

/// In a strictly increasing list, `index_of` finds the position an element
/// was read from.
pub proof fn lemma_sorted_index_of(s: Seq<u64>, j: int)
    requires
        sorted_strict(s),
        0 <= j < s.len(),
    ensures
        s.index_of(s[j]) == j,
{
    let i = s.index_of(s[j]);
    assert(s.contains(s[j]));
    assert(0 <= i < s.len() && s[i] == s[j]);
    if i < j {
        assert(s[i] < s[j]);
    } else if i > j {
        assert(s[j] < s[i]);
    }
}

/// Number of elements of a strictly increasing key below `id`: the position
/// at which `id` stands, or would be inserted.
pub fn sorted_position(key: &Vec<u64>, id: u64) -> (p: usize)
    requires
        sorted_strict(key@),
    ensures
        p <= key@.len(),
        forall|i: int| 0 <= i < p ==> key@[i] < id,
        forall|i: int| p <= i < key@.len() ==> key@[i] >= id,
{
    let mut p: usize = 0;
    while p < key.len() && key[p] < id
        invariant
            p <= key@.len(),
            sorted_strict(key@),
            forall|i: int| 0 <= i < p ==> key@[i] < id,
        decreases key@.len() - p,
    {
        p = p + 1;
    }
    proof {
        if p < key@.len() {
            assert forall|i: int| p <= i < key@.len() implies key@[i] >= id by {
                if i > p {
                    assert(key@[p as int] < key@[i]);
                }
            }
        }
    }
    p
}

/// Inserting a missing kind at its sorted position keeps a key strictly
/// increasing.
pub proof fn lemma_insert_sorted(key: Seq<u64>, p: int, id: u64)
    requires
        sorted_strict(key),
        0 <= p <= key.len(),
        forall|i: int| 0 <= i < p ==> key[i] < id,
        forall|i: int| p <= i < key.len() ==> key[i] >= id,
        !key.contains(id),
    ensures
        sorted_strict(key.insert(p, id)),
        forall|k: u64| #[trigger] key.insert(p, id).contains(k) <==> (key.contains(k) || k == id),
{
    let nk = key.insert(p, id);
    assert forall|i: int, j: int| 0 <= i < j < nk.len() implies nk[i] < nk[j] by {
        if j < p {
        } else if j == p {
        } else if i < p {
            assert(nk[j] == key[j - 1]);
        } else if i == p {
            assert(nk[j] == key[j - 1]);
            assert(key[j - 1] != id) by {
                assert(key.contains(key[j - 1]));
            }
        } else {
            assert(nk[i] == key[i - 1]);
            assert(nk[j] == key[j - 1]);
        }
    }
    assert forall|k: u64| #[trigger] nk.contains(k) <==> (key.contains(k) || k == id) by {
        if nk.contains(k) {
            let i = choose|i: int| 0 <= i < nk.len() && nk[i] == k;
            if i < p {
                assert(key[i] == k);
            } else if i > p {
                assert(key[i - 1] == k);
            }
        }
        if key.contains(k) {
            let i = choose|i: int| 0 <= i < key.len() && key[i] == k;
            if i < p {
                assert(nk[i] == k);
            } else {
                assert(nk[i + 1] == k);
            }
        }
        if k == id {
            assert(nk[p] == id);
        }
    }
}

/// Removing an element keeps a key strictly increasing.
pub proof fn lemma_remove_sorted(key: Seq<u64>, j: int)
    requires
        sorted_strict(key),
        0 <= j < key.len(),
    ensures
        sorted_strict(key.remove(j)),
        forall|k: u64| #[trigger] key.remove(j).contains(k) <==> (key.contains(k) && k != key[j]),
{
    let nk = key.remove(j);
    assert forall|a: int, b: int| 0 <= a < b < nk.len() implies nk[a] < nk[b] by {
        let oa = if a < j { a } else { a + 1 };
        let ob = if b < j { b } else { b + 1 };
        assert(nk[a] == key[oa]);
        assert(nk[b] == key[ob]);
    }
    assert forall|k: u64| #[trigger] nk.contains(k) <==> (key.contains(k) && k != key[j]) by {
        if nk.contains(k) {
            let i = choose|i: int| 0 <= i < nk.len() && nk[i] == k;
            let oi = if i < j { i } else { i + 1 };
            assert(key[oi] == k);
            assert(oi != j);
            if oi < j {
                assert(key[oi] < key[j]);
            } else {
                assert(key[j] < key[oi]);
            }
        }
        if key.contains(k) && k != key[j] {
            let i = choose|i: int| 0 <= i < key.len() && key[i] == k;
            assert(i != j);
            if i < j {
                assert(nk[i] == k);
            } else {
                assert(nk[i - 1] == k);
            }
        }
    }
}

/// Position of `id` in a key, if present.
pub fn key_position(key: &Vec<u64>, id: u64) -> (r: Option<usize>)
    ensures
        match r {
            Some(j) => j < key@.len() && key@[j as int] == id,
            None => !key@.contains(id),
        },
{
    let mut j: usize = 0;
    while j < key.len()
        invariant
            j <= key@.len(),
            forall|i: int| 0 <= i < j ==> key@[i] != id,
        decreases key@.len() - j,
    {
        if key[j] == id {
            return Some(j);
        }
        j = j + 1;
    }
    None
}

/// An archetype key depends only on the set of kinds it was made from: two
/// strictly increasing lists of the same kinds are the same list, so listing
/// the kinds in another order, or repeating one, gives the same key.
pub proof fn law_key_order_free(a: Seq<u64>, b: Seq<u64>)
    requires
        sorted_strict(a),
        sorted_strict(b),
        forall|k: u64| #![trigger a.contains(k)] #![trigger b.contains(k)] a.contains(k) <==> b.contains(k),
    ensures
        a == b,
    decreases a.len(),
{
    if a.len() == 0 {
        if b.len() > 0 {
            assert(b.contains(b[0]));
        }
        assert(a =~= b);
    } else {
        assert(a.contains(a[0]));
        assert(b.contains(b[0]));
        if a[0] != b[0] {
            let j = b.index_of(a[0]);
            let i = a.index_of(b[0]);
            assert(b[j] == a[0] && a[i] == b[0]);
        }
        let a2 = a.drop_first();
        let b2 = b.drop_first();
        assert forall|k: u64| #![trigger a2.contains(k)] #![trigger b2.contains(k)] a2.contains(k) <==> b2.contains(k) by {
            if a2.contains(k) {
                let i = a2.index_of(k);
                assert(a[i + 1] == k);
                assert(a.contains(k));
                let j = b.index_of(k);
                assert(b[j] == k);
                assert(j != 0);
                assert(b2[j - 1] == k);
            }
            if b2.contains(k) {
                let i = b2.index_of(k);
                assert(b[i + 1] == k);
                assert(b.contains(k));
                let j = a.index_of(k);
                assert(a[j] == k);
                assert(j != 0);
                assert(a2[j - 1] == k);
            }
        }
        law_key_order_free(a2, b2);
        assert(a =~= seq![a[0]] + a2);
        assert(b =~= seq![b[0]] + b2);
    }
}

/// Compute the archetype key of a list of kinds: the kinds sorted in
/// increasing order with duplicates removed.
pub fn archetype_key(type_ids: Vec<u64>) -> (key: Vec<u64>)
    ensures
        sorted_strict(key@),
        forall|k: u64| key@.contains(k) <==> type_ids@.contains(k),
{
    let mut key: Vec<u64> = Vec::new();
    let mut n: usize = 0;
    while n < type_ids.len()
        invariant
            n <= type_ids@.len(),
            sorted_strict(key@),
            forall|k: u64| key@.contains(k) <==> type_ids@.subrange(0, n as int).contains(k),
        decreases type_ids@.len() - n,
    {
        let id = type_ids[n];
        let p = sorted_position(&key, id);
        let ghost old_key = key@;
        assert(type_ids@.subrange(0, n + 1) =~= type_ids@.subrange(0, n as int).push(id));
        if p < key.len() && key[p] == id {
            assert forall|k: u64| key@.contains(k) <==> type_ids@.subrange(
                0,
                n + 1,
            ).contains(k) by {
                if k == id {
                    assert(key@[p as int] == id);
                }
                vstd::seq_lib::lemma_seq_contains_after_push(
                    type_ids@.subrange(0, n as int),
                    id,
                    k,
                );
            }
        } else {
            key.insert(p, id);
            assert(key@ == old_key.insert(p as int, id));
            assert forall|i: int, j: int| 0 <= i < j < key@.len() implies key@[i] < key@[j] by {
                if j < p {
                } else if j == p {
                } else if i < p {
                    assert(key@[j] == old_key[j - 1]);
                } else if i == p {
                    assert(key@[j] == old_key[j - 1]);
                    assert(old_key[p as int] >= id);
                    if j - 1 > p {
                        assert(old_key[p as int] < old_key[j - 1]);
                    }
                } else {
                    assert(key@[i] == old_key[i - 1]);
                    assert(key@[j] == old_key[j - 1]);
                }
            }
            assert forall|k: u64| key@.contains(k) <==> type_ids@.subrange(
                0,
                n + 1,
            ).contains(k) by {
                vstd::seq_lib::lemma_seq_contains_after_push(
                    type_ids@.subrange(0, n as int),
                    id,
                    k,
                );
                if key@.contains(k) {
                    let i = choose|i: int| 0 <= i < key@.len() && key@[i] == k;
                    if i < p {
                        assert(old_key[i] == k);
                    } else if i > p {
                        assert(old_key[i - 1] == k);
                    }
                }
                if old_key.contains(k) {
                    let i = choose|i: int| 0 <= i < old_key.len() && old_key[i] == k;
                    if i < p {
                        assert(key@[i] == k);
                    } else {
                        assert(key@[i + 1] == k);
                    }
                }
                if k == id {
                    assert(key@[p as int] == id);
                }
            }
        }
        n = n + 1;
    }
    assert(type_ids@.subrange(0, n as int) =~= type_ids@);
    key
}

/// A table of entities that all carry exactly the component kinds of `key`.
pub struct Archetype<V> {
    /// The component kinds, strictly increasing.
    pub key: Vec<u64>,
    /// `columns[j]` holds the values of kind `key[j]`, one per entity.
    pub columns: Vec<Vec<V>>,
    /// The entities stored in the table, parallel to the columns' rows.
    pub entities: Vec<Entity>,
}

impl<V> Archetype<V> {
    /// Key sorted, one column per kind, every column as long as the entity
    /// list.
    pub open spec fn wf(&self) -> bool {
        &&& sorted_strict(self.key@)
        &&& self.columns@.len() == self.key@.len()
        &&& forall|j: int|
            0 <= j < self.columns@.len() ==> (#[trigger] self.columns@[j])@.len()
                == self.entities@.len()
    }

    /// The components of the entity in row `r`, by kind.
    pub open spec fn row_components(&self, r: int) -> Map<u64, V> {
        Map::new(
            |k: u64| self.key@.contains(k),
            |k: u64| self.columns@[self.key@.index_of(k)]@[r],
        )
    }

    /// The values of row `r`, in key order.
    pub open spec fn row_values(&self, r: int) -> Seq<V> {
        Seq::new(self.key@.len(), |j: int| self.columns@[j]@[r])
    }

    /// Create an empty archetype for the given key, with one empty column per
    /// kind.
    pub fn new(key: Vec<u64>) -> (a: Self)
        requires
            sorted_strict(key@),
        ensures
            a.wf(),
            a.key@ == key@,
            a.entities@.len() == 0,
    {
        let mut columns: Vec<Vec<V>> = Vec::new();
        let mut j: usize = 0;
        while j < key.len()
            invariant
                j <= key@.len(),
                columns@.len() == j,
                forall|i: int| 0 <= i < j ==> (#[trigger] columns@[i])@.len() == 0,
            decreases key@.len() - j,
        {
            columns.push(Vec::new());
            j = j + 1;
        }
        Archetype { key, columns, entities: Vec::new() }
    }

    /// Whether this archetype holds a component of the given kind.
    pub fn has_component(&self, type_id: u64) -> (r: bool)
        ensures
            r == self.key@.contains(type_id),
    {
        match self.column_of(type_id) {
            Some(_) => true,
            None => false,
        }
    }

    /// Position of the column of the given kind, if there is one.
    pub fn column_of(&self, type_id: u64) -> (r: Option<usize>)
        ensures
            match r {
                Some(j) => j < self.key@.len() && self.key@[j as int] == type_id,
                None => !self.key@.contains(type_id),
            },
    {
        let mut j: usize = 0;
        while j < self.key.len()
            invariant
                j <= self.key@.len(),
                forall|i: int| 0 <= i < j ==> self.key@[i] != type_id,
            decreases self.key@.len() - j,
        {
            if self.key[j] == type_id {
                return Some(j);
            }
            j = j + 1;
        }
        None
    }

    /// Remove row `index` by moving the last row into its place, dropping
    /// the removed values. Returns the entity that was moved into `index`, or
    /// `None` if the removed row was the last one.
    pub fn swap_remove(&mut self, index: usize) -> (moved: Option<Entity>)
        requires
            old(self).wf(),
            index < old(self).entities@.len(),
        ensures
            final(self).wf(),
            final(self).key@ == old(self).key@,
            final(self).entities@ == old(self).entities@.update(
                index as int,
                old(self).entities@.last(),
            ).drop_last(),
            forall|j: int|
                0 <= j < final(self).columns@.len() ==> (#[trigger] final(self).columns@[j])@
                    == old(self).columns@[j]@.update(
                    index as int,
                    old(self).columns@[j]@.last(),
                ).drop_last(),
            moved == (if index < final(self).entities@.len() {
                Some(final(self).entities@[index as int])
            } else {
                None
            }),
    {
        let _ = self.take_row(index);
        if index < self.entities.len() {
            Some(self.entities[index])
        } else {
            None
        }
    }

    /// Remove row `index` by moving the last row into its place, and return
    /// the removed values in key order.
    pub fn take_row(&mut self, index: usize) -> (values: Vec<V>)
        requires
            old(self).wf(),
            index < old(self).entities@.len(),
        ensures
            final(self).wf(),
            final(self).key@ == old(self).key@,
            final(self).entities@ == old(self).entities@.update(
                index as int,
                old(self).entities@.last(),
            ).drop_last(),
            forall|j: int|
                0 <= j < final(self).columns@.len() ==> (#[trigger] final(self).columns@[j])@
                    == old(self).columns@[j]@.update(
                    index as int,
                    old(self).columns@[j]@.last(),
                ).drop_last(),
            values@ == old(self).row_values(index as int),
    {
        let mut values: Vec<V> = Vec::new();
        let mut j: usize = 0;
        while j < self.columns.len()
            invariant
                j <= self.columns@.len(),
                self.columns@.len() == old(self).columns@.len(),
                self.key@ == old(self).key@,
                self.entities@ == old(self).entities@,
                old(self).wf(),
                index < old(self).entities@.len(),
                values@.len() == j,
                forall|i: int| 0 <= i < j ==> values@[i] == old(self).columns@[i]@[index as int],
                forall|i: int|
                    0 <= i < j ==> (#[trigger] self.columns@[i])@ == old(self).columns@[i]@.update(
                        index as int,
                        old(self).columns@[i]@.last(),
                    ).drop_last(),
                forall|i: int| j <= i < self.columns@.len() ==> self.columns@[i] == old(self).columns@[i],
            decreases old(self).columns@.len() - j,
        {
            assert(self.columns@[j as int]@.len() == old(self).entities@.len());
            let v = self.columns[j].swap_remove(index);
            values.push(v);
            j = j + 1;
        }
        self.entities.swap_remove(index);
        assert(values@ =~= old(self).row_values(index as int));
        values
    }

    /// Append a row: `entity` with one value per kind, in key order.
    pub fn push_row(&mut self, entity: Entity, values: Vec<V>)
        requires
            old(self).wf(),
            values@.len() == old(self).key@.len(),
        ensures
            final(self).wf(),
            final(self).key@ == old(self).key@,
            final(self).entities@ == old(self).entities@.push(entity),
            forall|j: int|
                0 <= j < final(self).columns@.len() ==> (#[trigger] final(self).columns@[j])@
                    == old(self).columns@[j]@.push(values@[j]),
    {
        let mut values = values;
        let ghost vals = values@;
        let mut j: usize = self.columns.len();
        while j > 0
            invariant
                j <= self.columns@.len(),
                self.columns@.len() == old(self).columns@.len(),
                self.key@ == old(self).key@,
                self.entities@ == old(self).entities@,
                old(self).wf(),
                vals.len() == old(self).key@.len(),
                values@ == vals.subrange(0, j as int),
                forall|i: int|
                    j <= i < self.columns@.len() ==> (#[trigger] self.columns@[i])@ == old(
                        self,
                    ).columns@[i]@.push(vals[i]),
                forall|i: int| 0 <= i < j ==> self.columns@[i] == old(self).columns@[i],
            decreases j,
        {
            let v = values.pop().unwrap();
            assert(v == vals[j - 1]);
            j = j - 1;
            self.columns[j].push(v);
            assert(values@ =~= vals.subrange(0, j as int));
        }
        self.entities.push(entity);
    }
}

/// Lexicographic order on archetype keys: at the first place where they
/// differ the smaller kind comes first, and a key that is a prefix of the
/// other comes first.
pub open spec fn key_lt(a: Seq<TypeKey>, b: Seq<TypeKey>) -> bool
    decreases a.len(),
{
    if a.len() == 0 {
        b.len() > 0
    } else if b.len() == 0 {
        false
    } else if a[0] != b[0] {
        a[0] < b[0]
    } else {
        key_lt(a.drop_first(), b.drop_first())
    }
}

/// `key_lt` is a strict total order.
pub proof fn lemma_key_lt_total(a: Seq<TypeKey>, b: Seq<TypeKey>)
    ensures
        key_lt(a, b) || a == b || key_lt(b, a),
        !(key_lt(a, b) && key_lt(b, a)),
        !key_lt(a, a),
    decreases a.len(),
{
    if a.len() > 0 && b.len() > 0 {
        lemma_key_lt_total(a.drop_first(), b.drop_first());
        lemma_key_lt_total(a.drop_first(), a.drop_first());
        if a[0] == b[0] && a.drop_first() == b.drop_first() {
            assert(a =~= seq![a[0]] + a.drop_first());
            assert(b =~= seq![b[0]] + b.drop_first());
        }
    } else if a.len() == 0 && b.len() == 0 {
        assert(a =~= b);
    } else if a.len() > 0 {
        lemma_key_lt_total(a.drop_first(), a.drop_first());
    }
}

/// `key_lt` is transitive.
pub proof fn lemma_key_lt_trans(a: Seq<TypeKey>, b: Seq<TypeKey>, c: Seq<TypeKey>)
    requires
        key_lt(a, b),
        key_lt(b, c),
    ensures
        key_lt(a, c),
    decreases a.len(),
{
    if a.len() > 0 && b.len() > 0 && c.len() > 0 {
        if a[0] == b[0] && b[0] == c[0] {
            lemma_key_lt_trans(a.drop_first(), b.drop_first(), c.drop_first());
        }
    }
}

/// Whether key `a` comes before key `b` in lexicographic order.
pub fn key_less(a: &Vec<TypeKey>, b: &Vec<TypeKey>) -> (r: bool)
    ensures
        r == key_lt(a@, b@),
{
    let mut i: usize = 0;
    proof {
        assert(a@.skip(0) =~= a@);
        assert(b@.skip(0) =~= b@);
    }
    while i < a.len() && i < b.len() && a[i] == b[i]
        invariant
            i <= a@.len(),
            i <= b@.len(),
            key_lt(a@, b@) == key_lt(a@.skip(i as int), b@.skip(i as int)),
        decreases a@.len() - i,
    {
        proof {
            assert(a@.skip(i as int).drop_first() =~= a@.skip(i + 1));
            assert(b@.skip(i as int).drop_first() =~= b@.skip(i + 1));
        }
        i = i + 1;
    }
    proof {
        if i < a@.len() && i < b@.len() {
            assert(a@.skip(i as int)[0] == a@[i as int]);
            assert(b@.skip(i as int)[0] == b@[i as int]);
        }
    }
    if i == a.len() {
        i < b.len()
    } else if i == b.len() {
        false
    } else {
        a[i] < b[i]
    }
}

} // verus!
