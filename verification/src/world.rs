//! The world: the single owner of all entities, their components, global
//! resources, entity names, tags and parent/child links.
//!
//! Components and resources are values of one type `V` (typically an enum of
//! the game's component types), each stored under a kind key of type
//! [`TypeKey`]. Entities that carry the same set of kinds share an
//! [`Archetype`], in which every kind has a column and every entity a row.
use vstd::prelude::*;

use crate::archetype::{
    Archetype,
    TypeKey,
    archetype_key,
    key_less,
    key_lt,
    key_position,
    lemma_key_lt_total,
    lemma_key_lt_trans,
    lemma_insert_sorted,
    lemma_remove_sorted,
    lemma_sorted_index_of,
    sorted_position,
    sorted_strict,
};
use crate::entity::{Entity, EntityAllocator};
use crate::diag::{ArchetypeSnapshot, EntityPoolStats, EntitySnapshot};
use crate::hierarchy::{Children, Parent};
use crate::table::{KeyTable, TableKey};

verus! {

/// Where an entity's components are stored: an archetype and a row in it.
#[derive(Clone, Copy)]
pub struct EntityLocation {
    pub archetype: usize,
    pub row: usize,
}

/// The map of kinds to values described by a bundle, a later entry for a
/// kind overriding an earlier one.
pub open spec fn bundle_map<V>(b: Seq<(TypeKey, V)>) -> Map<TypeKey, V>
    decreases b.len(),
{
    if b.len() == 0 {
        Map::empty()
    } else {
        bundle_map(b.drop_last()).insert(b.last().0, b.last().1)
    }
}

pub proof fn lemma_bundle_map_dom<V>(b: Seq<(TypeKey, V)>, k: TypeKey)
    ensures
        bundle_map(b).contains_key(k) <==> exists|i: int| 0 <= i < b.len() && b[i].0 == k,
    decreases b.len(),
{
    if b.len() > 0 {
        lemma_bundle_map_dom(b.drop_last(), k);
        if exists|i: int| 0 <= i < b.len() && b[i].0 == k {
            let i = choose|i: int| 0 <= i < b.len() && b[i].0 == k;
            if i < b.len() - 1 {
                assert(b.drop_last()[i].0 == k);
            }
        }
        if exists|i: int| 0 <= i < b.len() - 1 && b.drop_last()[i].0 == k {
            let i = choose|i: int| 0 <= i < b.len() - 1 && b.drop_last()[i].0 == k;
            assert(b[i].0 == k);
        }
    }
}

/// The texts of a list of strings.
pub open spec fn strings_view(v: Seq<String>) -> Seq<Seq<char>> {
    v.map_values(|s: String| s@)
}

/// A counter of `u32` after `n` more events, wrapping past `u32::MAX`.
pub open spec fn count_after(c: u32, n: int) -> u32 {
    ((c + n) % 0x1_0000_0000) as u32
}

/// One more event after `n` more is `n + 1` more.
pub proof fn lemma_count_step(c: u32, n: int)
    requires
        n >= 0,
    ensures
        count_after(count_after(c, n), 1) == count_after(c, n + 1),
        count_after(c, 0) == c,
        count_after(c, 1) == c.wrapping_add(1),
{
    vstd::arithmetic::div_mod::lemma_add_mod_noop_right(1, c + n, 0x1_0000_0000);
    vstd::arithmetic::div_mod::lemma_small_mod(c as nat, 0x1_0000_0000);
    vstd::arithmetic::div_mod::lemma_mod_bound(c + n, 0x1_0000_0000);
    if c + 1 < 0x1_0000_0000 {
        vstd::arithmetic::div_mod::lemma_small_mod((c + 1) as nat, 0x1_0000_0000);
    } else {
        vstd::arithmetic::div_mod::lemma_mod_self_0(0x1_0000_0000);
    }
}

/// Whether two kind lists are equal.
pub fn keys_equal(a: &Vec<TypeKey>, b: &Vec<TypeKey>) -> (r: bool)
    ensures
        r == (a@ == b@),
{
    if a.len() != b.len() {
        return false;
    }
    let mut i: usize = 0;
    while i < a.len()
        invariant
            i <= a@.len(),
            a@.len() == b@.len(),
            forall|j: int| 0 <= j < i ==> a@[j] == b@[j],
        decreases a@.len() - i,
    {
        if a[i] != b[i] {
            return false;
        }
        i = i + 1;
    }
    assert(a@ =~= b@);
    true
}

/// The archetype keys after an entity with the kinds of `key` was placed:
/// unchanged if an archetype with that key existed, otherwise extended by it.
pub open spec fn keys_after_placing(
    before: Seq<Seq<TypeKey>>,
    after: Seq<Seq<TypeKey>>,
    key: Seq<TypeKey>,
) -> bool {
    if before.contains(key) {
        after == before
    } else {
        after == before.push(key)
    }
}

/// Split a bundle into its kinds, in order, and a table of its values (a
/// later entry for a kind overriding an earlier one).
fn bundle_parts<V>(bundle: Vec<(TypeKey, V)>) -> (r: (Vec<TypeKey>, KeyTable<u64, V>))
    ensures
        r.1.wf(),
        r.1.view() == bundle_map(bundle@),
        forall|k: TypeKey|
            r.0@.contains(k) <==> exists|i: int| 0 <= i < bundle@.len() && bundle@[i].0 == k,
{
    let ghost b = bundle@;
    let mut rest = bundle;
    let mut ids: Vec<TypeKey> = Vec::new();
    let mut table: KeyTable<u64, V> = KeyTable::new();
    let ghost mut n: int = 0;
    while rest.len() > 0
        invariant
            n <= b.len(),
            rest@ == b.skip(n),
            table.wf(),
            table.view() == bundle_map(b.take(n)),
            ids@.len() == n,
            forall|i: int| 0 <= i < n ==> ids@[i] == b[i].0,
        decreases rest@.len(),
    {
        let (k, v) = rest.remove(0);
        assert(b.take(n + 1).drop_last() =~= b.take(n));
        assert(b.take(n + 1).last() == b[n]);
        table.insert(k, v);
        ids.push(k);
        proof {
            n = n + 1;
        }
        assert(rest@ =~= b.skip(n));
    }
    assert(b.take(n) =~= b);
    proof {
        assert forall|k: TypeKey|
            ids@.contains(k) <==> exists|i: int| 0 <= i < b.len() && b[i].0 == k by {
            if ids@.contains(k) {
                let i = choose|i: int| 0 <= i < ids@.len() && ids@[i] == k;
                assert(b[i].0 == k);
            }
            if exists|i: int| 0 <= i < b.len() && b[i].0 == k {
                let i = choose|i: int| 0 <= i < b.len() && b[i].0 == k;
                assert(ids@[i] == k);
            }
        }
    }
    (ids, table)
}

/// The values of a table listed in the order of a key holding exactly the
/// table's keys.
fn values_in_key_order<V>(table: KeyTable<u64, V>, key: &Vec<TypeKey>) -> (values: Vec<V>)
    requires
        table.wf(),
        sorted_strict(key@),
        forall|k: TypeKey| table.view().contains_key(k) <==> key@.contains(k),
    ensures
        values@.len() == key@.len(),
        forall|j: int| 0 <= j < key@.len() ==> values@[j] == table.view()[key@[j]],
{
    let ghost m = table.view();
    let mut table = table;
    let mut values: Vec<V> = Vec::new();
    let mut j: usize = 0;
    assert forall|k: TypeKey|
        table.view().contains_key(k) <==> exists|i: int| 0 <= i < key@.len() && key@[i] == k by {
        assert(key@.contains(k) <==> exists|i: int| 0 <= i < key@.len() && key@[i] == k);
    }
    while j < key.len()
        invariant
            j <= key@.len(),
            sorted_strict(key@),
            table.wf(),
            forall|k: TypeKey|
                table.view().contains_key(k) <==> exists|i: int| j <= i < key@.len() && key@[i] == k,
            forall|k: TypeKey| table.view().contains_key(k) ==> table.view()[k] == m[k],
            forall|k: TypeKey| m.contains_key(k) <==> key@.contains(k),
            values@.len() == j,
            forall|i: int| 0 <= i < j ==> values@[i] == m[key@[i]],
        decreases key@.len() - j,
    {
        let k = key[j];
        assert(table.view().contains_key(k));
        let v = table.remove(&k).unwrap();
        values.push(v);
        proof {
            assert forall|k2: TypeKey|
                table.view().contains_key(k2) <==> exists|i: int|
                    j + 1 <= i < key@.len() && key@[i] == k2 by {
                if exists|i: int| j + 1 <= i < key@.len() && key@[i] == k2 {
                    let i = choose|i: int| j + 1 <= i < key@.len() && key@[i] == k2;
                    assert(key@[j as int] < key@[i]);
                }
                if table.view().contains_key(k2) {
                    let i = choose|i: int| j <= i < key@.len() && key@[i] == k2;
                    assert(i != j);
                }
            }
        }
        j = j + 1;
    }
    values
}

/// Remove `e` from a list of distinct entities, if it is there.
pub fn remove_entity(v: &mut Vec<Entity>, e: Entity)
    requires
        old(v)@.no_duplicates(),
    ensures
        final(v)@.no_duplicates(),
        final(v)@.to_set() == old(v)@.to_set().remove(e),
{
    let mut i: usize = 0;
    while i < v.len()
        invariant
            i <= v@.len(),
            v@ == old(v)@,
            old(v)@.no_duplicates(),
            forall|j: int| 0 <= j < i ==> v@[j] != e,
        decreases v@.len() - i,
    {
        if v[i] == e {
            let ghost before = v@;
            v.remove(i);
            proof {
                assert forall|a: int, b: int|
                    0 <= a < v@.len() && 0 <= b < v@.len() && a != b implies v@[a] != v@[b] by {
                    let oa = if a < i { a } else { a + 1 };
                    let ob = if b < i { b } else { b + 1 };
                    assert(v@[a] == before[oa]);
                    assert(v@[b] == before[ob]);
                }
                assert forall|x: Entity| #[trigger] v@.to_set().contains(x) <==> before.to_set().remove(e).contains(x) by {
                    if v@.contains(x) {
                        let j = choose|j: int| 0 <= j < v@.len() && v@[j] == x;
                        let oj = if j < i { j } else { j + 1 };
                        assert(before[oj] == x);
                        assert(oj != i as int);
                    }
                    if before.contains(x) && x != e {
                        let j = choose|j: int| 0 <= j < before.len() && before[j] == x;
                        assert(j != i as int);
                        if j < i {
                            assert(v@[j] == x);
                        } else {
                            assert(v@[j - 1] == x);
                        }
                    }
                }
                assert(v@.to_set() =~= before.to_set().remove(e));
            }
            return;
        }
        i = i + 1;
    }
    proof {
        assert(!v@.contains(e));
        assert(v@.to_set() =~= v@.to_set().remove(e));
    }
}

/// What a sequence holds after a push.
pub proof fn lemma_push_contains<A>(s: Seq<A>, a: A, x: A)
    ensures
        s.push(a).contains(x) == (s.contains(x) || x == a),
{
    if s.push(a).contains(x) {
        let j = s.push(a).index_of(x);
        if j < s.len() {
            assert(s[j] == x);
        }
    }
    if s.contains(x) {
        let j = s.index_of(x);
        assert(s.push(a)[j] == x);
    }
    if x == a {
        assert(s.push(a)[s.len() as int] == a);
    }
}

/// The test "is not `e`".
pub open spec fn other_than(e: Entity) -> spec_fn(Entity) -> bool {
    |c: Entity| c != e
}

/// Filtering `e` out keeps exactly the other entries, and keeps them distinct.
pub proof fn lemma_without(s: Seq<Entity>, e: Entity)
    ensures
        forall|x: Entity| #[trigger]
            s.filter(other_than(e)).contains(x) <==> (s.contains(x) && x != e),
        s.no_duplicates() ==> s.filter(other_than(e)).no_duplicates(),
    decreases s.len(),
{
    reveal(Seq::filter);
    if s.len() > 0 {
        let d = s.drop_last();
        lemma_without(d, e);
        let f = d.filter(other_than(e));
        assert(other_than(e)(s.last()) == (s.last() != e));
        assert(s.filter(other_than(e)) == (if s.last() != e {
            f.push(s.last())
        } else {
            f
        }));
        assert forall|x: Entity| #[trigger]
            s.filter(other_than(e)).contains(x) <==> (s.contains(x) && x != e) by {
            assert(s =~= d.push(s.last()));
            if s.contains(x) && x != s.last() {
                let i = s.index_of(x);
                assert(d[i] == x);
            }
            if d.contains(x) {
                let i = d.index_of(x);
                assert(s[i] == x);
            }
            if f.push(s.last()).contains(x) && x != s.last() {
                let i = f.push(s.last()).index_of(x);
                assert(f[i] == x);
            }
            if f.contains(x) {
                let i = f.index_of(x);
                assert(f.push(s.last())[i] == x);
            }
        }
        if s.no_duplicates() {
            assert(d.no_duplicates());
            assert(!d.contains(s.last())) by {
                if d.contains(s.last()) {
                    let i = d.index_of(s.last());
                    assert(s[i] == s[s.len() - 1]);
                }
            }
            assert(!f.contains(s.last()));
            let g = f.push(s.last());
            assert forall|i: int, j: int| 0 <= i < j < g.len() implies g[i] != g[j] by {
                if j == f.len() {
                    assert(f.contains(g[i]));
                }
            }
        }
    }
}

/// `v` without the entries equal to `e`, in order.
pub fn without_entity(v: &Vec<Entity>, e: Entity) -> (r: Vec<Entity>)
    ensures
        r@ == v@.filter(other_than(e)),
{
    let mut r: Vec<Entity> = Vec::new();
    let mut i: usize = 0;
    while i < v.len()
        invariant
            i <= v@.len(),
            r@ == v@.take(i as int).filter(other_than(e)),
        decreases v@.len() - i,
    {
        proof {
            reveal(Seq::filter);
            assert(v@.take(i + 1).drop_last() =~= v@.take(i as int));
        }
        if v[i] != e {
            r.push(v[i]);
        }
        i = i + 1;
    }
    proof {
        assert(v@.take(i as int) =~= v@);
    }
    r
}

/// Whether `v` holds `e`.
pub fn contains_entity(v: &Vec<Entity>, e: Entity) -> (r: bool)
    ensures
        r == v@.contains(e),
{
    let mut i: usize = 0;
    while i < v.len()
        invariant
            i <= v@.len(),
            forall|j: int| 0 <= j < i ==> v@[j] != e,
        decreases v@.len() - i,
    {
        if v[i] == e {
            return true;
        }
        i = i + 1;
    }
    false
}

/// A copy of a list of strings.
fn copy_strings(v: &Vec<String>) -> (r: Vec<String>)
    ensures
        r@ == v@,
{
    let mut r: Vec<String> = Vec::new();
    let mut i: usize = 0;
    while i < v.len()
        invariant
            i <= v@.len(),
            r@ == v@.subrange(0, i as int),
        decreases v@.len() - i,
    {
        r.push(v[i].clone());
        i = i + 1;
        assert(r@ =~= v@.subrange(0, i as int));
    }
    assert(v@.subrange(0, i as int) =~= v@);
    r
}

/// A copy of a list of plain values.
pub fn copy_vec<T: Copy>(v: &Vec<T>) -> (r: Vec<T>)
    ensures
        r@ == v@,
{
    let mut r: Vec<T> = Vec::new();
    let mut i: usize = 0;
    while i < v.len()
        invariant
            i <= v@.len(),
            r@ == v@.subrange(0, i as int),
        decreases v@.len() - i,
    {
        r.push(v[i]);
        i = i + 1;
        assert(r@ =~= v@.subrange(0, i as int));
    }
    assert(v@.subrange(0, i as int) =~= v@);
    r
}

/// The global state of a game: entities with their components, resources,
/// names, tags and parent/child links.
pub struct World<V> {
    allocator: EntityAllocator,
    /// Every archetype ever created, in creation order.
    archetypes: Vec<Archetype<V>>,
    /// Location of the entity in each slot, `None` for free slots.
    locations: Vec<Option<EntityLocation>>,
    resources: KeyTable<u64, V>,
    /// Name to entity.
    names: KeyTable<String, Entity>,
    /// Slot index to the name last given to the entity in that slot.
    names_reverse: KeyTable<u32, String>,
    /// Tag to the entities that carry it.
    tags: KeyTable<String, Vec<Entity>>,
    /// Slot index to the tags given to the entity in that slot, in order.
    entity_tags: KeyTable<u32, Vec<String>>,
    /// Parent of the entity in each slot.
    parents: Vec<Option<Entity>>,
    /// Children of the entity in each slot.
    children: Vec<Option<Vec<Entity>>>,
    /// Entities spawned since the counts were last read, modulo 2^32.
    spawned_this_frame: u32,
    /// Entities despawned since the counts were last read, modulo 2^32.
    despawned_this_frame: u32,
    /// Spawn time of every handle ever handed out.
    births: Ghost<Map<Entity, nat>>,
    /// Number of handles ever handed out.
    clock: Ghost<nat>,
}

impl<V> World<V> {
    // ── Specification ─────────────────────────────────────────────────

    spec fn loc_ok(
        gens: Seq<u32>,
        locs: Seq<Option<EntityLocation>>,
        archs: Seq<Archetype<V>>,
        i: int,
    ) -> bool {
        let l = locs[i].unwrap();
        &&& l.archetype < archs.len()
        &&& l.row < archs[l.archetype as int].entities@.len()
        &&& archs[l.archetype as int].entities@[l.row as int].index() == i
        &&& archs[l.archetype as int].entities@[l.row as int].generation() == gens[i]
    }

    spec fn row_ok(
        alloc: EntityAllocator,
        locs: Seq<Option<EntityLocation>>,
        archs: Seq<Archetype<V>>,
        a: int,
        r: int,
    ) -> bool {
        let e = archs[a].entities@[r];
        &&& alloc.holds(e)
        &&& locs[e.index() as int].is_some()
        &&& locs[e.index() as int].unwrap().archetype == a
        &&& locs[e.index() as int].unwrap().row == r
    }

    spec fn store_wf(&self) -> bool {
        &&& self.allocator.wf()
        &&& self.locations@.len() == self.allocator.generations().len()
        &&& self.parents@.len() == self.allocator.generations().len()
        &&& self.children@.len() == self.allocator.generations().len()
        &&& forall|a: int|
            0 <= a < self.archetypes@.len() ==> (#[trigger] self.archetypes@[a]).wf()
        &&& forall|a: int, b: int|
            0 <= a < self.archetypes@.len() && 0 <= b < self.archetypes@.len() && a != b
                ==> self.archetypes@[a].key@ != self.archetypes@[b].key@
        &&& forall|i: int|
            0 <= i < self.locations@.len() ==> ((#[trigger] self.locations@[i]).is_some()
                <==> self.allocator.slot_in_use(i))
        &&& forall|i: int|
            0 <= i < self.locations@.len() && self.locations@[i].is_some() ==> #[trigger] Self::loc_ok(
                self.allocator.generations(),
                self.locations@,
                self.archetypes@,
                i,
            )
        &&& forall|a: int, r: int|
            0 <= a < self.archetypes@.len() && 0 <= r < self.archetypes@[a].entities@.len()
                ==> #[trigger] Self::row_ok(self.allocator, self.locations@, self.archetypes@, a, r)
    }

    /// The entity store with the row of `e` missing: `e` is held, but no
    /// row holds an entity of its slot and its location is meaningless.
    spec fn store_wf_except(&self, e: Entity) -> bool {
        &&& self.allocator.wf()
        &&& self.allocator.holds(e)
        &&& self.locations@.len() == self.allocator.generations().len()
        &&& self.parents@.len() == self.allocator.generations().len()
        &&& self.children@.len() == self.allocator.generations().len()
        &&& forall|a: int|
            0 <= a < self.archetypes@.len() ==> (#[trigger] self.archetypes@[a]).wf()
        &&& forall|a: int, b: int|
            0 <= a < self.archetypes@.len() && 0 <= b < self.archetypes@.len() && a != b
                ==> self.archetypes@[a].key@ != self.archetypes@[b].key@
        &&& forall|i: int|
            0 <= i < self.locations@.len() && i != e.index() ==> ((
            #[trigger] self.locations@[i]).is_some() <==> self.allocator.slot_in_use(i))
        &&& forall|i: int|
            0 <= i < self.locations@.len() && i != e.index() && self.locations@[i].is_some()
                ==> #[trigger] Self::loc_ok(
                self.allocator.generations(),
                self.locations@,
                self.archetypes@,
                i,
            )
        &&& forall|a: int, r: int|
            0 <= a < self.archetypes@.len() && 0 <= r < self.archetypes@[a].entities@.len()
                ==> #[trigger] Self::row_ok(self.allocator, self.locations@, self.archetypes@, a, r)
        &&& forall|a: int, r: int|
            0 <= a < self.archetypes@.len() && 0 <= r < self.archetypes@[a].entities@.len()
                ==> (#[trigger] self.archetypes@[a].entities@[r]).index() != e.index()
    }

    /// Entities other than `e` keep their liveness, components and links
    /// between `self` and `other`.
    spec fn others_same(&self, other: &Self, e: Entity) -> bool {
        forall|x: Entity|
            x != e ==> {
                &&& (#[trigger] self.contains(x)) == other.contains(x)
                &&& self.components(x) == other.components(x)
                &&& self.parent_of(x) == other.parent_of(x)
                &&& self.children_of(x) == other.children_of(x)
            }
    }

    /// The children list of a slot's entity, empty if it has none.
    spec fn kids(children: Seq<Option<Vec<Entity>>>, p: Entity) -> Seq<Entity> {
        match children[p.index() as int] {
            Some(v) => v@,
            None => Seq::empty(),
        }
    }

    /// Every handle ever handed out has a spawn time, and a generation not
    /// above its slot's (equal only while it is held); children lists hold
    /// distinct handles spawned after their parent, and no handle is listed
    /// under two parents.
    spec fn hier_wf(
        alloc: EntityAllocator,
        children: Seq<Option<Vec<Entity>>>,
        births: Map<Entity, nat>,
        clock: nat,
    ) -> bool {
        &&& births.dom().finite()
        &&& forall|x: Entity| #[trigger] births.contains_key(x) ==> births[x] < clock
        &&& forall|x: Entity| #[trigger] alloc.holds(x) ==> births.contains_key(x)
        &&& forall|x: Entity|
            #[trigger] births.contains_key(x) ==> x.index() < alloc.generations().len() && (
            x.generation() < alloc.generations()[x.index() as int] || alloc.holds(x))
        &&& forall|p: Entity, k: int|
            alloc.holds(p) && 0 <= k < Self::kids(children, p).len() ==> births.contains_key(
                #[trigger] Self::kids(children, p)[k],
            ) && births[p] < births[Self::kids(children, p)[k]]
        &&& forall|p: Entity| alloc.holds(p) ==> (#[trigger] Self::kids(children, p)).no_duplicates()
        &&& forall|p: Entity, q: Entity, k: int, l: int|
            alloc.holds(p) && alloc.holds(q) && 0 <= k < Self::kids(children, p).len() && 0 <= l
                < Self::kids(children, q).len() && #[trigger] Self::kids(children, p)[k]
                == #[trigger] Self::kids(children, q)[l] ==> p == q
    }

    /// Spawning `e` keeps the hierarchy invariant.
    proof fn lemma_hier_spawn(
        alloc: EntityAllocator,
        alloc2: EntityAllocator,
        children: Seq<Option<Vec<Entity>>>,
        children2: Seq<Option<Vec<Entity>>>,
        births: Map<Entity, nat>,
        clock: nat,
        e: Entity,
    )
        requires
            Self::hier_wf(alloc, children, births, clock),
            alloc.wf(),
            children.len() == alloc.generations().len(),
            forall|x: Entity| #[trigger] alloc2.holds(x) <==> (alloc.holds(x) || x == e),
            !alloc.holds(e),
            !alloc.slot_in_use(e.index() as int),
            alloc2.generations().len() >= alloc.generations().len(),
            forall|i: int|
                0 <= i < alloc.generations().len() ==> #[trigger] alloc2.generations()[i]
                    == alloc.generations()[i],
            children2.len() == alloc2.generations().len(),
            children2[e.index() as int] is None,
            forall|i: int| 0 <= i < children.len() && i != e.index() ==> children2[i] == children[i],
        ensures
            Self::hier_wf(alloc2, children2, births.insert(e, clock), clock + 1),
    {
        let b2 = births.insert(e, clock);
        assert(alloc2.holds(e));
        assert(!births.contains_key(e)) by {
            if births.contains_key(e) {
                assert(e.index() < alloc.generations().len());
                assert(alloc.slot_in_use(e.index() as int) || alloc.free_slots().contains(e.index()));
            }
        }
        assert forall|p: Entity| alloc2.holds(p) && p != e implies Self::kids(children2, p) == Self::kids(children, p) by {
            assert(alloc.holds(p));
            assert(alloc.slot_in_use(p.index() as int));
        }
        assert forall|p: Entity, k: int|
            alloc2.holds(p) && 0 <= k < Self::kids(children2, p).len() implies b2.contains_key(
                #[trigger] Self::kids(children2, p)[k],
            ) && b2[p] < b2[Self::kids(children2, p)[k]] by {
            if p == e {
            } else {
                assert(Self::kids(children2, p) == Self::kids(children, p));
                assert(births.contains_key(Self::kids(children, p)[k]));
            }
        }
        assert forall|p: Entity| alloc2.holds(p) implies (#[trigger] Self::kids(children2, p)).no_duplicates() by {
            if p != e {
                assert(Self::kids(children2, p) == Self::kids(children, p));
            }
        }
        assert forall|p: Entity, q: Entity, k: int, l: int|
            alloc2.holds(p) && alloc2.holds(q) && 0 <= k < Self::kids(children2, p).len() && 0 <= l
                < Self::kids(children2, q).len() && #[trigger] Self::kids(children2, p)[k]
                == #[trigger] Self::kids(children2, q)[l] implies p == q by {
            if p != e && q != e {
                assert(Self::kids(children2, p) == Self::kids(children, p));
                assert(Self::kids(children2, q) == Self::kids(children, q));
            }
        }
        assert forall|x: Entity| #[trigger] b2.contains_key(x) implies x.index() < alloc2.generations().len() && (
            x.generation() < alloc2.generations()[x.index() as int] || alloc2.holds(x)) by {
            if x != e {
                assert(births.contains_key(x));
            }
        }
    }

    /// A fresh entity, listed nowhere and without parent, keeps the links.
    proof fn lemma_links_spawn(
        alloc: EntityAllocator,
        alloc2: EntityAllocator,
        parents: Seq<Option<Entity>>,
        parents2: Seq<Option<Entity>>,
        children: Seq<Option<Vec<Entity>>>,
        children2: Seq<Option<Vec<Entity>>>,
        births: Map<Entity, nat>,
        clock: nat,
        e: Entity,
    )
        requires
            Self::links_wf(alloc, parents, children),
            Self::hier_wf(alloc, children, births, clock),
            alloc.wf(),
            children.len() == alloc.generations().len(),
            parents.len() == alloc.generations().len(),
            forall|x: Entity| #[trigger] alloc2.holds(x) <==> (alloc.holds(x) || x == e),
            !births.contains_key(e),
            !alloc.slot_in_use(e.index() as int),
            children2.len() == alloc2.generations().len(),
            parents2.len() == alloc2.generations().len(),
            children2[e.index() as int] is None,
            forall|i: int| 0 <= i < children.len() && i != e.index() ==> children2[i] == children[i],
            forall|i: int| 0 <= i < parents.len() && i != e.index() ==> parents2[i] == parents[i],
        ensures
            Self::links_wf(alloc2, parents2, children2),
    {
        assert forall|p: Entity, k: int|
            alloc2.holds(p) && 0 <= k < Self::kids(children2, p).len() && alloc2.holds(
                #[trigger] Self::kids(children2, p)[k],
            ) implies parents2[Self::kids(children2, p)[k].index() as int] == Some(p) by {
            if p != e {
                assert(alloc.holds(p));
                assert(alloc.slot_in_use(p.index() as int));
                assert(Self::kids(children2, p) == Self::kids(children, p));
                let c = Self::kids(children, p)[k];
                assert(births.contains_key(c));
                assert(c != e);
                assert(alloc.holds(c));
                assert(alloc.slot_in_use(c.index() as int));
            }
        }
    }

    /// Listing a fresh `c` under `p` and recording `p` as its parent keeps
    /// the links.
    proof fn lemma_links_link(
        alloc: EntityAllocator,
        parents: Seq<Option<Entity>>,
        parents2: Seq<Option<Entity>>,
        children: Seq<Option<Vec<Entity>>>,
        children2: Seq<Option<Vec<Entity>>>,
        p: Entity,
        c: Entity,
    )
        requires
            Self::links_wf(alloc, parents, children),
            alloc.wf(),
            children.len() == alloc.generations().len(),
            parents.len() == alloc.generations().len(),
            alloc.holds(p),
            alloc.holds(c),
            p != c,
            forall|q: Entity, k: int|
                alloc.holds(q) && 0 <= k < Self::kids(children, q).len() ==> #[trigger] Self::kids(
                    children,
                    q,
                )[k] != c,
            children2.len() == children.len(),
            Self::kids(children2, p) == Self::kids(children, p).push(c),
            forall|i: int|
                0 <= i < children.len() && i != p.index() ==> #[trigger] children2[i] == children[i],
            parents2 == parents.update(c.index() as int, Some(p)),
        ensures
            Self::links_wf(alloc, parents2, children2),
    {
        assert forall|q: Entity, k: int|
            alloc.holds(q) && 0 <= k < Self::kids(children2, q).len() && alloc.holds(
                #[trigger] Self::kids(children2, q)[k],
            ) implies parents2[Self::kids(children2, q)[k].index() as int] == Some(q) by {
            let x = Self::kids(children2, q)[k];
            x.lemma_eq(c);
            if x != c {
                if x.index() == c.index() {
                    assert(alloc.slot_in_use(x.index() as int));
                }
            }
            if q == p {
                if k < Self::kids(children, p).len() {
                    assert(x == Self::kids(children, p)[k]);
                }
            } else {
                q.lemma_eq(p);
                if q.index() == p.index() {
                    assert(alloc.slot_in_use(q.index() as int));
                }
                assert(Self::kids(children2, q) == Self::kids(children, q));
                assert(x != c);
            }
        }
    }

    /// Despawning `e` keeps the links.
    proof fn lemma_links_despawn(
        alloc: EntityAllocator,
        alloc2: EntityAllocator,
        parents: Seq<Option<Entity>>,
        parents2: Seq<Option<Entity>>,
        children: Seq<Option<Vec<Entity>>>,
        children2: Seq<Option<Vec<Entity>>>,
        e: Entity,
    )
        requires
            Self::links_wf(alloc, parents, children),
            alloc.wf(),
            alloc.holds(e),
            children.len() == alloc.generations().len(),
            parents.len() == alloc.generations().len(),
            forall|x: Entity| #[trigger] alloc2.holds(x) <==> (alloc.holds(x) && x != e),
            children2.len() == children.len(),
            parents2.len() == parents.len(),
            forall|i: int| 0 <= i < children.len() && i != e.index() ==> children2[i] == children[i],
            forall|i: int| 0 <= i < parents.len() && i != e.index() ==> parents2[i] == parents[i],
        ensures
            Self::links_wf(alloc2, parents2, children2),
    {
        assert forall|q: Entity, k: int|
            alloc2.holds(q) && 0 <= k < Self::kids(children2, q).len() && alloc2.holds(
                #[trigger] Self::kids(children2, q)[k],
            ) implies parents2[Self::kids(children2, q)[k].index() as int] == Some(q) by {
            assert(alloc.holds(q));
            q.lemma_eq(e);
            if q.index() == e.index() {
                assert(alloc.slot_in_use(q.index() as int));
            }
            assert(Self::kids(children2, q) == Self::kids(children, q));
            let x = Self::kids(children, q)[k];
            assert(alloc.holds(x));
            x.lemma_eq(e);
            if x.index() == e.index() {
                assert(alloc.slot_in_use(x.index() as int));
            }
        }
    }

    /// Dropping `e` from the children list of `p` keeps the links.
    proof fn lemma_links_unlink(
        alloc: EntityAllocator,
        parents: Seq<Option<Entity>>,
        children: Seq<Option<Vec<Entity>>>,
        children2: Seq<Option<Vec<Entity>>>,
        p: Entity,
        e: Entity,
    )
        requires
            Self::links_wf(alloc, parents, children),
            alloc.wf(),
            children.len() == alloc.generations().len(),
            alloc.holds(p),
            children2.len() == children.len(),
            Self::kids(children2, p) == Self::kids(children, p).filter(other_than(e)),
            forall|i: int|
                0 <= i < children.len() && i != p.index() ==> #[trigger] children2[i] == children[i],
        ensures
            Self::links_wf(alloc, parents, children2),
    {
        lemma_without(Self::kids(children, p), e);
        assert forall|q: Entity, k: int|
            alloc.holds(q) && 0 <= k < Self::kids(children2, q).len() && alloc.holds(
                #[trigger] Self::kids(children2, q)[k],
            ) implies parents[Self::kids(children2, q)[k].index() as int] == Some(q) by {
            let x = Self::kids(children2, q)[k];
            if q == p {
                assert(Self::kids(children2, p).contains(x));
                let j = Self::kids(children, p).index_of(x);
                assert(Self::kids(children, p)[j] == x);
            } else {
                q.lemma_eq(p);
                if q.index() == p.index() {
                    assert(alloc.slot_in_use(q.index() as int));
                }
                assert(Self::kids(children2, q) == Self::kids(children, q));
            }
        }
    }

    /// Despawning `e` keeps the hierarchy invariant.
    proof fn lemma_hier_despawn(
        alloc: EntityAllocator,
        alloc2: EntityAllocator,
        children: Seq<Option<Vec<Entity>>>,
        children2: Seq<Option<Vec<Entity>>>,
        births: Map<Entity, nat>,
        clock: nat,
        e: Entity,
    )
        requires
            Self::hier_wf(alloc, children, births, clock),
            alloc.wf(),
            alloc.holds(e),
            e.generation() < u32::MAX,
            children.len() == alloc.generations().len(),
            forall|x: Entity| #[trigger] alloc2.holds(x) <==> (alloc.holds(x) && x != e),
            alloc2.generations() == alloc.generations().update(
                e.index() as int,
                (e.generation() + 1) as u32,
            ),
            children2.len() == children.len(),
            children2[e.index() as int] is None,
            forall|i: int| 0 <= i < children.len() && i != e.index() ==> children2[i] == children[i],
        ensures
            Self::hier_wf(alloc2, children2, births, clock),
    {
        assert forall|p: Entity| alloc2.holds(p) implies Self::kids(children2, p) == Self::kids(children, p) by {
            assert(alloc.holds(p));
            p.lemma_eq(e);
            if p.index() == e.index() {
                assert(p.generation() == e.generation());
            }
        }
        assert forall|p: Entity, k: int|
            alloc2.holds(p) && 0 <= k < Self::kids(children2, p).len() implies births.contains_key(
                #[trigger] Self::kids(children2, p)[k],
            ) && births[p] < births[Self::kids(children2, p)[k]] by {
            assert(Self::kids(children2, p) == Self::kids(children, p));
            assert(births.contains_key(Self::kids(children, p)[k]));
        }
        assert forall|p: Entity| alloc2.holds(p) implies (#[trigger] Self::kids(children2, p)).no_duplicates() by {
            assert(Self::kids(children2, p) == Self::kids(children, p));
        }
        assert forall|p: Entity, q: Entity, k: int, l: int|
            alloc2.holds(p) && alloc2.holds(q) && 0 <= k < Self::kids(children2, p).len() && 0 <= l
                < Self::kids(children2, q).len() && #[trigger] Self::kids(children2, p)[k]
                == #[trigger] Self::kids(children2, q)[l] implies p == q by {
            assert(Self::kids(children2, p) == Self::kids(children, p));
            assert(Self::kids(children2, q) == Self::kids(children, q));
        }
        assert forall|x: Entity| #[trigger] births.contains_key(x) implies x.index() < alloc2.generations().len() && (
            x.generation() < alloc2.generations()[x.index() as int] || alloc2.holds(x)) by {
            x.lemma_eq(e);
            if x.index() == e.index() {
                assert(alloc.generations()[x.index() as int] == e.generation());
                assert(x.generation() <= e.generation());
            } else {
                assert(alloc2.generations()[x.index() as int] == alloc.generations()[x.index() as int]);
            }
        }
    }

    /// The recorded parent of a live entity is a handle that was handed out.
    spec fn parents_wf(
        alloc: EntityAllocator,
        parents: Seq<Option<Entity>>,
        births: Map<Entity, nat>,
    ) -> bool {
        forall|i: int|
            0 <= i < parents.len() && alloc.slot_in_use(i) && (#[trigger] parents[i]).is_some()
                ==> births.contains_key(parents[i].unwrap())
    }

    /// A live entity listed as a child of a live entity records it as its
    /// parent.
    spec fn links_wf(
        alloc: EntityAllocator,
        parents: Seq<Option<Entity>>,
        children: Seq<Option<Vec<Entity>>>,
    ) -> bool {
        forall|p: Entity, k: int|
            alloc.holds(p) && 0 <= k < Self::kids(children, p).len() && alloc.holds(
                #[trigger] Self::kids(children, p)[k],
            ) ==> parents[Self::kids(children, p)[k].index() as int] == Some(p)
    }

    spec fn tables_wf(&self) -> bool {
        &&& self.resources.wf()
        &&& self.names.wf()
        &&& self.names_reverse.wf()
        &&& self.tags.wf()
        &&& self.entity_tags.wf()
        &&& forall|t: Seq<char>|
            #[trigger] self.tags.view().contains_key(t) ==> self.tags.view()[t]@.no_duplicates()
    }

    /// Representation invariant.
    pub closed spec fn wf(&self) -> bool {
        &&& self.store_wf()
        &&& self.tables_wf()
        &&& Self::hier_wf(self.allocator, self.children@, self.births@, self.clock@)
        &&& Self::parents_wf(self.allocator, self.parents@, self.births@)
        &&& Self::links_wf(self.allocator, self.parents@, self.children@)
    }

    /// The entity is alive in this world: it was spawned here and not
    /// despawned since.
    pub closed spec fn contains(&self, e: Entity) -> bool {
        self.allocator.holds(e)
    }

    /// The handle passes the allocator's liveness check: its slot exists and
    /// carries its generation.
    pub closed spec fn handle_alive(&self, e: Entity) -> bool {
        self.allocator.handle_alive(e)
    }

    /// Every handle this world ever handed out, alive or not.
    pub closed spec fn handed_out(&self) -> Set<Entity> {
        self.births@.dom()
    }

    /// A live entity is one this world handed out.
    pub proof fn lemma_contains_handed_out(&self, e: Entity)
        requires
            self.wf(),
            self.contains(e),
        ensures
            self.handed_out().contains(e),
    {
    }

    /// Components of an entity, by kind (empty for an entity not alive).
    pub closed spec fn components(&self, e: Entity) -> Map<TypeKey, V> {
        if self.allocator.holds(e) {
            let l = self.locations@[e.index() as int].unwrap();
            self.archetypes@[l.archetype as int].row_components(l.row as int)
        } else {
            Map::empty()
        }
    }

    /// Resources, by kind.
    pub closed spec fn resources(&self) -> Map<TypeKey, V> {
        self.resources.view()
    }

    /// Entity names.
    pub closed spec fn names(&self) -> Map<Seq<char>, Entity> {
        self.names.view()
    }

    /// For each slot index, the name last given to an entity in that slot.
    pub closed spec fn slot_names(&self) -> Map<u32, Seq<char>> {
        self.names_reverse.view().map_values(|s: String| s@)
    }

    /// Tags and the entities that carry them.
    pub closed spec fn tags(&self) -> Map<Seq<char>, Set<Entity>> {
        self.tags.view().map_values(|v: Vec<Entity>| v@.to_set())
    }

    /// For each slot index, the tags given to entities in that slot, in the
    /// order they were given.
    pub closed spec fn slot_tags(&self) -> Map<u32, Seq<Seq<char>>> {
        self.entity_tags.view().map_values(|v: Vec<String>| strings_view(v@))
    }

    /// The key of every archetype, in creation order.
    pub closed spec fn archetype_keys(&self) -> Seq<Seq<TypeKey>> {
        self.archetypes@.map_values(|a: Archetype<V>| a.key@)
    }

    /// Number of live entities.
    pub closed spec fn live_count(&self) -> int {
        self.allocator.spec_alive_count()
    }

    /// Entities spawned since the counts were last read, modulo 2^32.
    pub closed spec fn spawned_count(&self) -> u32 {
        self.spawned_this_frame
    }

    /// Entities despawned since the counts were last read, modulo 2^32.
    pub closed spec fn despawned_count(&self) -> u32 {
        self.despawned_this_frame
    }

    /// Slot index that the next spawned entity will get.
    pub closed spec fn next_index(&self) -> u32 {
        self.allocator.next_handle_index()
    }

    /// Generation that the next spawned entity will get: that of the most
    /// recently freed slot, or 0 for a fresh slot.
    pub closed spec fn next_generation(&self) -> u32 {
        if self.allocator.free_slots().len() > 0 {
            self.allocator.generations()[self.allocator.free_slots().last() as int]
        } else {
            0
        }
    }

    /// Another entity can be spawned without the slot count overflowing: a
    /// freed slot waits for reuse, or a new slot still has an index.
    pub open spec fn can_spawn(&self) -> bool {
        self.free_slot_count() > 0 || self.slot_count() < u32::MAX
    }

    /// Parent of an entity, if it was spawned as a child.
    pub closed spec fn parent_of(&self, e: Entity) -> Option<Entity> {
        if self.allocator.holds(e) {
            self.parents@[e.index() as int]
        } else {
            None
        }
    }

    /// Children of an entity, if any were ever spawned under it.
    pub closed spec fn children_of(&self, e: Entity) -> Option<Seq<Entity>> {
        if self.allocator.holds(e) {
            match self.children@[e.index() as int] {
                Some(v) => Some(v@),
                None => None,
            }
        } else {
            None
        }
    }

    /// Everything but the entity store is unchanged.
    pub open spec fn same_tables(&self, other: &Self) -> bool {
        &&& self.resources() == other.resources()
        &&& self.names() == other.names()
        &&& self.slot_names() == other.slot_names()
        &&& self.tags() == other.tags()
        &&& self.slot_tags() == other.slot_tags()
    }

    /// Every entity keeps its liveness, components and links.
    pub open spec fn same_entities(&self, other: &Self) -> bool {
        &&& forall|x: Entity|
            {
                &&& (#[trigger] self.contains(x)) == other.contains(x)
                &&& self.components(x) == other.components(x)
                &&& self.parent_of(x) == other.parent_of(x)
                &&& self.children_of(x) == other.children_of(x)
            }
        &&& self.live_count() == other.live_count()
        &&& self.archetype_keys() == other.archetype_keys()
        &&& self.next_index() == other.next_index()
        &&& self.next_generation() == other.next_generation()
        &&& self.can_spawn() == other.can_spawn()
    }

    /// Every entity other than `e` keeps its liveness, components and links.
    pub open spec fn others_unchanged(&self, other: &Self, e: Entity) -> bool {
        forall|x: Entity|
            #![trigger self.contains(x)]
            #![trigger self.components(x)]
            x != e ==> {
                &&& self.contains(x) == other.contains(x)
                &&& self.components(x) == other.components(x)
                &&& self.parent_of(x) == other.parent_of(x)
                &&& self.children_of(x) == other.children_of(x)
            }
    }

    /// Worlds with the same entity store agree on every entity.
    proof fn lemma_same_store(a: &Self, b: &Self)
        requires
            a.allocator == b.allocator,
            a.archetypes == b.archetypes,
            a.locations == b.locations,
            a.parents == b.parents,
            a.children == b.children,
        ensures
            a.same_entities(b),
    {
        assert forall|x: Entity| #![trigger a.contains(x)] {
            &&& a.contains(x) == b.contains(x)
            &&& a.components(x) == b.components(x)
            &&& a.parent_of(x) == b.parent_of(x)
            &&& a.children_of(x) == b.children_of(x)
        } by {}
    }

    /// The tags of a world after `tag(e, t)`.
    pub open spec fn tags_with(
        tags: Map<Seq<char>, Set<Entity>>,
        t: Seq<char>,
        e: Entity,
    ) -> Map<Seq<char>, Set<Entity>> {
        if tags.contains_key(t) {
            tags.insert(t, tags[t].insert(e))
        } else {
            tags.insert(t, Set::empty().insert(e))
        }
    }

    /// The slot tags of a world after tagging an entity in slot `i` with `t`.
    pub open spec fn slot_tags_with(
        st: Map<u32, Seq<Seq<char>>>,
        i: u32,
        t: Seq<char>,
    ) -> Map<u32, Seq<Seq<char>>> {
        if st.contains_key(i) {
            st.insert(i, st[i].push(t))
        } else {
            st.insert(i, seq![t])
        }
    }

    /// The tags after an entity carrying `t` is despawned: the entity
    /// leaves the tag, and a tag left without entities disappears.
    pub open spec fn tag_without(
        tags: Map<Seq<char>, Set<Entity>>,
        t: Seq<char>,
        e: Entity,
    ) -> Map<Seq<char>, Set<Entity>> {
        if tags.contains_key(t) {
            if tags[t].remove(e) == Set::<Entity>::empty() {
                tags.remove(t)
            } else {
                tags.insert(t, tags[t].remove(e))
            }
        } else {
            tags
        }
    }

    /// The tags after an entity carrying the tags `list` is despawned.
    pub open spec fn tags_without(
        tags: Map<Seq<char>, Set<Entity>>,
        list: Seq<Seq<char>>,
        e: Entity,
    ) -> Map<Seq<char>, Set<Entity>>
        decreases list.len(),
    {
        if list.len() == 0 {
            tags
        } else {
            Self::tag_without(Self::tags_without(tags, list.drop_last(), e), list.last(), e)
        }
    }

    /// The names after the entity in slot `i` is despawned: the name last
    /// given in that slot is freed.
    pub open spec fn names_without(
        names: Map<Seq<char>, Entity>,
        slot_names: Map<u32, Seq<char>>,
        i: u32,
    ) -> Map<Seq<char>, Entity> {
        if slot_names.contains_key(i) {
            names.remove(slot_names[i])
        } else {
            names
        }
    }

    /// Slots of the entities in `s`.
    pub open spec fn slots_of(s: Set<Entity>) -> Set<u32> {
        Set::new(|i: u32| exists|x: Entity| #[trigger] s.contains(x) && x.index() == i)
    }

    /// Names freed when the entities in `s` are despawned: the name last
    /// given in the slot of each.
    pub open spec fn names_freed(slot_names: Map<u32, Seq<char>>, s: Set<Entity>) -> Set<Seq<char>> {
        Set::new(
            |n: Seq<char>|
                exists|x: Entity|
                    #[trigger] s.contains(x) && slot_names.contains_key(x.index())
                        && slot_names[x.index()] == n,
        )
    }

    /// The entities of `s` whose slot lists tag `t`.
    pub open spec fn tagged_in(slot_tags: Map<u32, Seq<Seq<char>>>, s: Set<Entity>, t: Seq<char>) -> Set<
        Entity,
    > {
        s.filter(|y: Entity| slot_tags.contains_key(y.index()) && slot_tags[y.index()].contains(t))
    }

    /// The tags after the entities in `s` are despawned: each leaves the
    /// tags listed for its slot, and a tag that one of them left and that
    /// has no entity left disappears.
    pub open spec fn tags_after_despawns(
        tags: Map<Seq<char>, Set<Entity>>,
        slot_tags: Map<u32, Seq<Seq<char>>>,
        s: Set<Entity>,
    ) -> Map<Seq<char>, Set<Entity>> {
        Map::new(
            |t: Seq<char>|
                tags.contains_key(t) && (Self::tagged_in(slot_tags, s, t).is_empty() || !tags[t].difference(
                    Self::tagged_in(slot_tags, s, t),
                ).is_empty()),
            |t: Seq<char>| tags[t].difference(Self::tagged_in(slot_tags, s, t)),
        )
    }

    /// `tags_without` in closed form: each listed tag loses `e`, and goes
    /// when nothing is left.
    pub open spec fn tags_without_closed(
        tags: Map<Seq<char>, Set<Entity>>,
        list: Seq<Seq<char>>,
        e: Entity,
    ) -> Map<Seq<char>, Set<Entity>> {
        Map::new(
            |t: Seq<char>| tags.contains_key(t) && (!list.contains(t) || !tags[t].remove(e).is_empty()),
            |t: Seq<char>| if list.contains(t) {
                tags[t].remove(e)
            } else {
                tags[t]
            },
        )
    }

    proof fn lemma_tags_without(tags: Map<Seq<char>, Set<Entity>>, list: Seq<Seq<char>>, e: Entity)
        ensures
            Self::tags_without(tags, list, e) == Self::tags_without_closed(tags, list, e),
        decreases list.len(),
    {
        if list.len() == 0 {
            assert(Self::tags_without_closed(tags, list, e) =~= tags);
        } else {
            let dl = list.drop_last();
            let t0 = list.last();
            Self::lemma_tags_without(tags, dl, e);
            let m = Self::tags_without_closed(tags, dl, e);
            assert forall|t: Seq<char>| list.contains(t) == (dl.contains(t) || t == t0) by {
                assert(list =~= dl.push(t0));
                lemma_push_contains(dl, t0, t);
            }
            if m.contains_key(t0) {
                assert(m[t0].remove(e) =~= tags[t0].remove(e));
                if m[t0].remove(e) == Set::<Entity>::empty() {
                    assert(m.remove(t0) =~= Self::tags_without_closed(tags, list, e));
                } else {
                    assert(m.insert(t0, m[t0].remove(e)) =~= Self::tags_without_closed(tags, list, e));
                }
            } else {
                assert(m =~= Self::tags_without_closed(tags, list, e));
            }
        }
    }

    proof fn lemma_tags_after_step(
        tags: Map<Seq<char>, Set<Entity>>,
        slot_tags: Map<u32, Seq<Seq<char>>>,
        s: Set<Entity>,
        y: Entity,
    )
        requires
            !s.contains(y),
        ensures
            Self::tags_without_closed(
                Self::tags_after_despawns(tags, slot_tags, s),
                if slot_tags.contains_key(y.index()) {
                    slot_tags[y.index()]
                } else {
                    Seq::empty()
                },
                y,
            ) == Self::tags_after_despawns(tags, slot_tags, s.insert(y)),
    {
        let l = if slot_tags.contains_key(y.index()) {
            slot_tags[y.index()]
        } else {
            Seq::<Seq<char>>::empty()
        };
        let m = Self::tags_after_despawns(tags, slot_tags, s);
        let lhs = Self::tags_without_closed(m, l, y);
        let rhs = Self::tags_after_despawns(tags, slot_tags, s.insert(y));
        assert forall|t: Seq<char>| #[trigger] lhs.contains_key(t) == rhs.contains_key(t) && (
            lhs.contains_key(t) ==> lhs[t] == rhs[t]) by {
            let d = Self::tagged_in(slot_tags, s, t);
            let d2 = Self::tagged_in(slot_tags, s.insert(y), t);
            if l.contains(t) {
                assert(d2 =~= d.insert(y));
                assert(tags.contains_key(t) ==> tags[t].difference(d).remove(y) =~= tags[t].difference(d2));
                if tags.contains_key(t) && !tags[t].difference(d2).is_empty() {
                    let w = tags[t].difference(d2).choose();
                    assert(tags[t].difference(d2).contains(w));
                    assert(tags[t].difference(d).contains(w));
                }
                assert(!d2.is_empty()) by {
                    assert(d2.contains(y));
                }
            } else {
                assert(d2 =~= d);
            }
        }
        assert(lhs =~= rhs);
    }

    /// The entity is alive and has a component of every listed kind.
    pub open spec fn matches(&self, e: Entity, required: Seq<TypeKey>) -> bool {
        &&& self.contains(e)
        &&& forall|i: int| 0 <= i < required.len() ==> #[trigger] self.components(e).contains_key(required[i])
    }

    // ── Construction ──────────────────────────────────────────────────

    /// An empty world: no entities, archetypes, resources, names or tags.
    pub fn new() -> (w: Self)
        ensures
            w.wf(),
            forall|e: Entity| !w.contains(e),
            forall|e: Entity| !w.handle_alive(e),
            w.handed_out() == Set::<Entity>::empty(),
            w.resources() == Map::<TypeKey, V>::empty(),
            w.names() == Map::<Seq<char>, Entity>::empty(),
            w.slot_names() == Map::<u32, Seq<char>>::empty(),
            w.tags() == Map::<Seq<char>, Set<Entity>>::empty(),
            w.slot_tags() == Map::<u32, Seq<Seq<char>>>::empty(),
            w.archetype_keys() == Seq::<Seq<TypeKey>>::empty(),
            w.live_count() == 0,
            w.spawned_count() == 0,
            w.despawned_count() == 0,
            w.slot_count() == 0,
            w.free_slot_count() == 0,
            w.next_generation() == 0,
            w.can_spawn(),
    {
        let w = World {
            allocator: EntityAllocator::new(),
            archetypes: Vec::new(),
            locations: Vec::new(),
            resources: KeyTable::new(),
            names: KeyTable::new(),
            names_reverse: KeyTable::new(),
            tags: KeyTable::new(),
            entity_tags: KeyTable::new(),
            parents: Vec::new(),
            children: Vec::new(),
            spawned_this_frame: 0,
            despawned_this_frame: 0,
            births: Ghost(Map::empty()),
            clock: Ghost(0),
        };
        assert(w.slot_names() =~= Map::<u32, Seq<char>>::empty());
        assert(w.tags() =~= Map::<Seq<char>, Set<Entity>>::empty());
        assert(w.slot_tags() =~= Map::<u32, Seq<Seq<char>>>::empty());
        assert(w.archetype_keys() =~= Seq::<Seq<TypeKey>>::empty());
        assert(w.handed_out() =~= Set::<Entity>::empty());
        w
    }

    // ── Resources ─────────────────────────────────────────────────────

    /// Insert a resource, replacing any resource of the same kind.
    pub fn insert_resource(&mut self, type_id: TypeKey, value: V)
        requires
            old(self).wf(),
        ensures
            final(self).spawned_count() == old(self).spawned_count(),
            final(self).slot_count() == old(self).slot_count(),
            final(self).handed_out() == old(self).handed_out(),
            final(self).despawned_count() == old(self).despawned_count(),
            final(self).wf(),
            final(self).resources() == old(self).resources().insert(type_id, value),
            final(self).names() == old(self).names(),
            final(self).slot_names() == old(self).slot_names(),
            final(self).tags() == old(self).tags(),
            final(self).slot_tags() == old(self).slot_tags(),
            final(self).same_entities(old(self)),
    {
        self.resources.insert(type_id, value);
    }

    /// The resource of the given kind. The caller must know it is present.
    pub fn resource(&self, type_id: TypeKey) -> (r: &V)
        requires
            self.wf(),
            self.resources().contains_key(type_id),
        ensures
            *r == self.resources()[type_id],
    {
        self.resources.get(&type_id).unwrap()
    }

    /// Mutable access to the resource of the given kind. The caller must know
    /// it is present.
    pub fn resource_mut(&mut self, type_id: TypeKey) -> (r: &mut V)
        requires
            old(self).wf(),
            old(self).resources().contains_key(type_id),
        ensures
            final(self).spawned_count() == old(self).spawned_count(),
            final(self).slot_count() == old(self).slot_count(),
            final(self).handed_out() == old(self).handed_out(),
            final(self).despawned_count() == old(self).despawned_count(),
            final(self).wf(),
            *r == old(self).resources()[type_id],
            final(self).resources() == old(self).resources().insert(type_id, *final(r)),
            final(self).names() == old(self).names(),
            final(self).slot_names() == old(self).slot_names(),
            final(self).tags() == old(self).tags(),
            final(self).slot_tags() == old(self).slot_tags(),
            final(self).same_entities(old(self)),
    {
        self.resources.get_mut(&type_id).unwrap()
    }

    /// The resource of the given kind, if present.
    pub fn get_resource(&self, type_id: TypeKey) -> (r: Option<&V>)
        requires
            self.wf(),
        ensures
            match r {
                Some(v) => self.resources().contains_key(type_id) && *v == self.resources()[type_id],
                None => !self.resources().contains_key(type_id),
            },
    {
        self.resources.get(&type_id)
    }

    /// Mutable access to the resource of the given kind, if present.
    pub fn get_resource_mut(&mut self, type_id: TypeKey) -> (r: Option<&mut V>)
        requires
            old(self).wf(),
        ensures
            final(self).spawned_count() == old(self).spawned_count(),
            final(self).slot_count() == old(self).slot_count(),
            final(self).handed_out() == old(self).handed_out(),
            final(self).despawned_count() == old(self).despawned_count(),
            final(self).wf(),
            match r {
                Some(v) => {
                    &&& old(self).resources().contains_key(type_id)
                    &&& *v == old(self).resources()[type_id]
                    &&& final(self).resources() == old(self).resources().insert(
                        type_id,
                        *final(v),
                    )
                },
                None => {
                    &&& !old(self).resources().contains_key(type_id)
                    &&& final(self).resources() == old(self).resources()
                },
            },
            final(self).names() == old(self).names(),
            final(self).slot_names() == old(self).slot_names(),
            final(self).tags() == old(self).tags(),
            final(self).slot_tags() == old(self).slot_tags(),
            final(self).same_entities(old(self)),
    {
        self.resources.get_mut(&type_id)
    }

    /// Whether a resource of the given kind is present.
    pub fn has_resource(&self, type_id: TypeKey) -> (r: bool)
        requires
            self.wf(),
        ensures
            r == self.resources().contains_key(type_id),
    {
        self.resources.contains_key(&type_id)
    }

    /// Remove the resource of the given kind and hand it back, if present.
    pub fn resource_remove(&mut self, type_id: TypeKey) -> (r: Option<V>)
        requires
            old(self).wf(),
        ensures
            final(self).spawned_count() == old(self).spawned_count(),
            final(self).slot_count() == old(self).slot_count(),
            final(self).handed_out() == old(self).handed_out(),
            final(self).despawned_count() == old(self).despawned_count(),
            final(self).wf(),
            final(self).resources() == old(self).resources().remove(type_id),
            match r {
                Some(v) => old(self).resources().contains_key(type_id) && v == old(
                    self,
                ).resources()[type_id],
                None => !old(self).resources().contains_key(type_id),
            },
            final(self).names() == old(self).names(),
            final(self).slot_names() == old(self).slot_names(),
            final(self).tags() == old(self).tags(),
            final(self).slot_tags() == old(self).slot_tags(),
            final(self).same_entities(old(self)),
    {
        self.resources.remove(&type_id)
    }

    // ── Entity store ──────────────────────────────────────────────────

    /// Position of the archetype with the given key, if there is one.
    fn find_archetype(&self, key: &Vec<TypeKey>) -> (r: Option<usize>)
        ensures
            match r {
                Some(a) => a < self.archetypes@.len() && self.archetypes@[a as int].key@ == key@,
                None => forall|a: int|
                    0 <= a < self.archetypes@.len() ==> self.archetypes@[a].key@ != key@,
            },
    {
        let mut a: usize = 0;
        while a < self.archetypes.len()
            invariant
                a <= self.archetypes@.len(),
                forall|b: int| 0 <= b < a ==> self.archetypes@[b].key@ != key@,
            decreases self.archetypes@.len() - a,
        {
            if keys_equal(&self.archetypes[a].key, key) {
                return Some(a);
            }
            a = a + 1;
        }
        None
    }

    /// Store a row for `e`, whose row is missing, in the archetype for
    /// `key` (created if needed), and record its location.
    fn place_row(&mut self, e: Entity, key: Vec<TypeKey>, values: Vec<V>)
        requires
            old(self).store_wf_except(e),
            sorted_strict(key@),
            values@.len() == key@.len(),
        ensures
            final(self).spawned_count() == old(self).spawned_count(),
            final(self).slot_count() == old(self).slot_count(),
            final(self).handed_out() == old(self).handed_out(),
            final(self).despawned_count() == old(self).despawned_count(),
            final(self).store_wf(),
            final(self).allocator == old(self).allocator,
            final(self).parents@ == old(self).parents@,
            final(self).children@ == old(self).children@,
            final(self).contains(e),
            final(self).components(e) == Map::new(
                |k: TypeKey| key@.contains(k),
                |k: TypeKey| values@[key@.index_of(k)],
            ),
            final(self).others_same(old(self), e),
            keys_after_placing(old(self).archetype_keys(), final(self).archetype_keys(), key@),
            final(self).resources == old(self).resources,
            final(self).names == old(self).names,
            final(self).names_reverse == old(self).names_reverse,
            final(self).tags == old(self).tags,
            final(self).entity_tags == old(self).entity_tags,
            final(self).births == old(self).births,
            final(self).clock == old(self).clock,
    {
        let ghost key_seq = key@;
        let ghost vals = values@;
        let a = match self.find_archetype(&key) {
            Some(a) => {
                assert(old(self).archetype_keys()[a as int] == key_seq);
                a
            },
            None => {
                proof {
                    if old(self).archetype_keys().contains(key_seq) {
                        let i = choose|i: int|
                            0 <= i < old(self).archetype_keys().len() && old(
                                self,
                            ).archetype_keys()[i] == key_seq;
                        assert(old(self).archetypes@[i].key@ == key_seq);
                    }
                }
                self.archetypes.push(Archetype::new(key));
                proof {
                    assert(self.archetype_keys() =~= old(self).archetype_keys().push(key_seq));
                }
                self.archetypes.len() - 1
            },
        };
        let ghost mid = self.archetypes@;
        let ghost mid_keys = self.archetype_keys();
        let row = self.archetypes[a].entities.len();
        self.archetypes[a].push_row(e, values);
        self.locations.set(e.index() as usize, Some(EntityLocation { archetype: a, row }));
        proof {
            let ai = a as int;
            assert(forall|b: int|
                0 <= b < self.archetypes@.len() && b != ai ==> self.archetypes@[b] == mid[b]);
            assert(self.archetype_keys() =~= mid_keys);
            assert forall|b: int, r: int|
                0 <= b < self.archetypes@.len() && 0 <= r < self.archetypes@[b].entities@.len()
                    implies #[trigger] Self::row_ok(
                    self.allocator,
                    self.locations@,
                    self.archetypes@,
                    b,
                    r,
                ) by {
                if b == ai && r == row as int {
                } else {
                    assert(self.archetypes@[b].entities@[r] == mid[b].entities@[r]);
                    if b < old(self).archetypes@.len() {
                        assert(Self::row_ok(
                            old(self).allocator,
                            old(self).locations@,
                            old(self).archetypes@,
                            b,
                            r,
                        ));
                        assert(old(self).archetypes@[b].entities@[r].index() != e.index());
                    }
                }
            }
            assert forall|i: int|
                0 <= i < self.locations@.len() && self.locations@[i].is_some() implies #[trigger] Self::loc_ok(
                self.allocator.generations(),
                self.locations@,
                self.archetypes@,
                i,
            ) by {
                if i != e.index() {
                    assert(Self::loc_ok(
                        old(self).allocator.generations(),
                        old(self).locations@,
                        old(self).archetypes@,
                        i,
                    ));
                }
            }
            assert forall|i: int|
                0 <= i < self.locations@.len() implies ((#[trigger] self.locations@[i]).is_some()
                <==> self.allocator.slot_in_use(i)) by {
                if i == e.index() {
                    assert(!self.allocator.free_slots().contains(e.index()));
                }
            }
            assert forall|x: Entity| x != e implies {
                &&& (#[trigger] self.contains(x)) == old(self).contains(x)
                &&& self.components(x) == old(self).components(x)
                &&& self.parent_of(x) == old(self).parent_of(x)
                &&& self.children_of(x) == old(self).children_of(x)
            } by {
                if self.contains(x) {
                    x.lemma_eq(e);
                    assert(x.index() != e.index());
                    let l = self.locations@[x.index() as int].unwrap();
                    assert(Self::loc_ok(
                        old(self).allocator.generations(),
                        old(self).locations@,
                        old(self).archetypes@,
                        x.index() as int,
                    ));
                    let la = l.archetype as int;
                    assert(self.archetypes@[la].row_components(l.row as int)
                        =~= old(self).archetypes@[la].row_components(l.row as int));
                }
            }
            assert(self.components(e) =~= Map::new(
                |k: TypeKey| key_seq.contains(k),
                |k: TypeKey| vals[key_seq.index_of(k)],
            ));
        }
    }

    /// Take the row of `e` out of its archetype, moving the archetype's last
    /// row into its place. Returns the archetype key and the row's values.
    fn take_entity_row(&mut self, e: Entity) -> (r: (Vec<TypeKey>, Vec<V>))
        requires
            old(self).store_wf(),
            old(self).contains(e),
        ensures
            final(self).spawned_count() == old(self).spawned_count(),
            final(self).slot_count() == old(self).slot_count(),
            final(self).handed_out() == old(self).handed_out(),
            final(self).despawned_count() == old(self).despawned_count(),
            final(self).store_wf_except(e),
            final(self).allocator == old(self).allocator,
            final(self).parents@ == old(self).parents@,
            final(self).children@ == old(self).children@,
            final(self).archetype_keys() == old(self).archetype_keys(),
            final(self).others_same(old(self), e),
            sorted_strict(r.0@),
            r.1@.len() == r.0@.len(),
            old(self).components(e) == Map::new(
                |k: TypeKey| r.0@.contains(k),
                |k: TypeKey| r.1@[r.0@.index_of(k)],
            ),
            old(self).archetype_keys().contains(r.0@),
            final(self).resources == old(self).resources,
            final(self).names == old(self).names,
            final(self).names_reverse == old(self).names_reverse,
            final(self).tags == old(self).tags,
            final(self).entity_tags == old(self).entity_tags,
            final(self).births == old(self).births,
            final(self).clock == old(self).clock,
    {
        let idx = e.index() as usize;
        proof {
            assert(old(self).locations@[idx as int].is_some());
            assert(Self::loc_ok(
                old(self).allocator.generations(),
                old(self).locations@,
                old(self).archetypes@,
                idx as int,
            ));
        }
        let loc = self.locations[idx].unwrap();
        let a = loc.archetype;
        let row = loc.row;
        let ghost ai = a as int;
        let ghost ri = row as int;
        let ghost last = old(self).archetypes@[ai].entities@.len() - 1;
        let ghost moved_e = old(self).archetypes@[ai].entities@[last];
        proof {
            e.lemma_eq(old(self).archetypes@[ai].entities@[ri]);
            assert(old(self).archetype_keys()[ai] == old(self).archetypes@[ai].key@);
        }
        proof {
            assert(Self::row_ok(
                old(self).allocator,
                old(self).locations@,
                old(self).archetypes@,
                ai,
                last,
            ));
            moved_e.lemma_eq(e);
        }
        let key = copy_vec(&self.archetypes[a].key);
        let values = self.archetypes[a].take_row(row);
        if row < self.archetypes[a].entities.len() {
            let moved = self.archetypes[a].entities[row];
            assert(moved == moved_e);
            self.locations.set(moved.index() as usize, Some(loc));
        }
        proof {
            assert(old(self).locations@[moved_e.index() as int].unwrap().row == last);
            assert(forall|b: int|
                0 <= b < self.archetypes@.len() && b != ai ==> self.archetypes@[b]
                    == old(self).archetypes@[b]);
            assert(self.archetype_keys() =~= old(self).archetype_keys());
            assert forall|b: int, r: int|
                0 <= b < self.archetypes@.len() && 0 <= r < self.archetypes@[b].entities@.len()
                    implies #[trigger] Self::row_ok(
                    self.allocator,
                    self.locations@,
                    self.archetypes@,
                    b,
                    r,
                ) && self.archetypes@[b].entities@[r].index() != e.index() by {
                if b == ai && r == ri {
                    assert(self.archetypes@[b].entities@[r] == moved_e);
                    assert(old(self).locations@[e.index() as int].unwrap().row == ri);
                    assert(moved_e.index() != e.index());
                } else {
                    let x = old(self).archetypes@[b].entities@[r];
                    assert(self.archetypes@[b].entities@[r] == x);
                    assert(Self::row_ok(
                        old(self).allocator,
                        old(self).locations@,
                        old(self).archetypes@,
                        b,
                        r,
                    ));
                    assert(b == ai ==> r < last);
                    assert(old(self).locations@[e.index() as int] == Some(loc));
                    assert(x.index() != e.index());
                    assert(x.index() != moved_e.index());
                    assert(self.locations@[x.index() as int] == old(self).locations@[x.index() as int]);
                }
            }
            assert forall|i: int|
                0 <= i < self.locations@.len() && i != e.index() && self.locations@[i].is_some()
                    implies #[trigger] Self::loc_ok(
                    self.allocator.generations(),
                    self.locations@,
                    self.archetypes@,
                    i,
                ) by {
                assert(Self::loc_ok(
                    old(self).allocator.generations(),
                    old(self).locations@,
                    old(self).archetypes@,
                    i,
                ));
                let l = old(self).locations@[i].unwrap();
                let x = old(self).archetypes@[l.archetype as int].entities@[l.row as int];
                assert(Self::row_ok(
                    old(self).allocator,
                    old(self).locations@,
                    old(self).archetypes@,
                    l.archetype as int,
                    l.row as int,
                ));
            }
            assert forall|x: Entity| x != e implies {
                &&& (#[trigger] self.contains(x)) == old(self).contains(x)
                &&& self.components(x) == old(self).components(x)
                &&& self.parent_of(x) == old(self).parent_of(x)
                &&& self.children_of(x) == old(self).children_of(x)
            } by {
                if self.contains(x) {
                    x.lemma_eq(e);
                    let ol = old(self).locations@[x.index() as int].unwrap();
                    assert(old(self).locations@[x.index() as int].is_some());
                    assert(Self::loc_ok(
                        old(self).allocator.generations(),
                        old(self).locations@,
                        old(self).archetypes@,
                        x.index() as int,
                    ));
                    assert(Self::row_ok(
                        old(self).allocator,
                        old(self).locations@,
                        old(self).archetypes@,
                        ol.archetype as int,
                        ol.row as int,
                    ));
                    let nl = self.locations@[x.index() as int].unwrap();
                    assert(self.archetypes@[nl.archetype as int].row_components(nl.row as int)
                        =~= old(self).archetypes@[ol.archetype as int].row_components(
                        ol.row as int,
                    ));
                }
            }
            assert forall|b: int, r: int|
                0 <= b < self.archetypes@.len() && 0 <= r < self.archetypes@[b].entities@.len()
                    implies (#[trigger] self.archetypes@[b].entities@[r]).index() != e.index() by {
                assert(Self::row_ok(
                    self.allocator,
                    self.locations@,
                    self.archetypes@,
                    b,
                    r,
                ) && self.archetypes@[b].entities@[r].index() != e.index());
            }
            assert forall|i: int|
                0 <= i < self.locations@.len() && i != e.index() implies ((
                #[trigger] self.locations@[i]).is_some() <==> self.allocator.slot_in_use(i)) by {
                assert(old(self).locations@[i].is_some() <==> old(self).allocator.slot_in_use(i));
                if i == moved_e.index() {
                    assert(old(self).locations@[i].is_some());
                }
            }
            assert forall|b: int| 0 <= b < self.archetypes@.len() implies (#[trigger] self.archetypes@[b]).wf() by {
                if b != ai {
                    assert(old(self).archetypes@[b].wf());
                }
            }
            assert forall|b: int, c: int|
                0 <= b < self.archetypes@.len() && 0 <= c < self.archetypes@.len() && b != c
                    implies self.archetypes@[b].key@ != self.archetypes@[c].key@ by {
                assert(self.archetypes@[b].key@ == old(self).archetypes@[b].key@);
                assert(self.archetypes@[c].key@ == old(self).archetypes@[c].key@);
            }
            assert(old(self).components(e) =~= Map::new(
                |k: TypeKey| key@.contains(k),
                |k: TypeKey| values@[key@.index_of(k)],
            ));
        }
        (key, values)
    }

    // ── Entity management ─────────────────────────────────────────────

    /// Whether a handle is alive: its slot exists and carries its
    /// generation.
    pub fn is_alive(&self, entity: Entity) -> (r: bool)
        requires
            self.wf(),
        ensures
            r == self.handle_alive(entity),
            self.contains(entity) ==> r,
    {
        self.allocator.is_alive(entity)
    }

    /// Number of live entities.
    pub fn entity_count(&self) -> (r: usize)
        requires
            self.wf(),
        ensures
            r == self.live_count(),
    {
        self.allocator.alive_count()
    }

    /// Number of archetypes ever created.
    pub fn archetype_count(&self) -> (r: usize)
        requires
            self.wf(),
        ensures
            r == self.archetype_keys().len(),
    {
        self.archetypes.len()
    }

    /// Spawn an entity with a bundle of components, each listed with its
    /// kind. A kind listed twice keeps its last value.
    pub fn spawn(&mut self, bundle: Vec<(TypeKey, V)>) -> (entity: Entity)
        requires
            old(self).wf(),
            old(self).can_spawn(),
        ensures
            final(self).spawned_count() == count_after(old(self).spawned_count(), 1),
            final(self).slot_count() <= old(self).slot_count() + 1,
            !old(self).handed_out().contains(entity),
            final(self).handed_out() == old(self).handed_out().insert(entity),
            old(self).handle_alive(entity) || (entity.generation() == 0 && entity.index() == old(
                self,
            ).slot_count()),
            forall|x: Entity| x != entity ==> #[trigger] final(self).handle_alive(x) == old(self).handle_alive(x),
            final(self).despawned_count() == old(self).despawned_count(),
            final(self).wf(),
            entity.index() == old(self).next_index(),
            entity.generation() == old(self).next_generation(),
            final(self).free_slot_count() == (if old(self).free_slot_count() > 0 {
                (old(self).free_slot_count() - 1) as nat
            } else {
                0
            }),
            final(self).free_slot_count() == 0 ==> final(self).next_generation() == 0,
            !old(self).contains(entity),
            final(self).contains(entity),
            final(self).components(entity) == bundle_map(bundle@),
            final(self).parent_of(entity) == None::<Entity>,
            final(self).children_of(entity) == None::<Seq<Entity>>,
            final(self).others_unchanged(old(self), entity),
            final(self).live_count() == old(self).live_count() + 1,
            exists|k: Seq<TypeKey>|
                {
                    &&& sorted_strict(k)
                    &&& forall|t: TypeKey| #[trigger] k.contains(t) <==> bundle_map(bundle@).contains_key(t)
                    &&& keys_after_placing(old(self).archetype_keys(), final(self).archetype_keys(), k)
                },
            final(self).same_tables(old(self)),
    {
        self.spawn_inner(bundle)
    }

    /// `spawn`, with what it does to the spawn record and the child lists.
    #[verifier::spinoff_prover]
    fn spawn_inner(&mut self, bundle: Vec<(TypeKey, V)>) -> (entity: Entity)
        requires
            old(self).wf(),
            old(self).can_spawn(),
        ensures
            final(self).spawned_count() == count_after(old(self).spawned_count(), 1),
            final(self).slot_count() <= old(self).slot_count() + 1,
            !old(self).handed_out().contains(entity),
            final(self).handed_out() == old(self).handed_out().insert(entity),
            old(self).handle_alive(entity) || (entity.generation() == 0 && entity.index() == old(
                self,
            ).slot_count()),
            forall|x: Entity| x != entity ==> #[trigger] final(self).handle_alive(x) == old(self).handle_alive(x),
            final(self).despawned_count() == old(self).despawned_count(),
            !old(self).births@.contains_key(entity),
            final(self).births@ == old(self).births@.insert(entity, old(self).clock@),
            final(self).clock@ == old(self).clock@ + 1,
            final(self).children@.len() >= old(self).children@.len(),
            entity.index() < final(self).children@.len(),
            final(self).children@[entity.index() as int] is None,
            forall|i: int|
                0 <= i < old(self).children@.len() && i != entity.index()
                    ==> #[trigger] final(self).children@[i] == old(self).children@[i],
            final(self).wf(),
            entity.index() == old(self).next_index(),
            entity.generation() == old(self).next_generation(),
            final(self).free_slot_count() == (if old(self).free_slot_count() > 0 {
                (old(self).free_slot_count() - 1) as nat
            } else {
                0
            }),
            final(self).free_slot_count() == 0 ==> final(self).next_generation() == 0,
            !old(self).contains(entity),
            final(self).contains(entity),
            final(self).components(entity) == bundle_map(bundle@),
            final(self).parent_of(entity) == None::<Entity>,
            final(self).children_of(entity) == None::<Seq<Entity>>,
            final(self).others_unchanged(old(self), entity),
            final(self).live_count() == old(self).live_count() + 1,
            exists|k: Seq<TypeKey>|
                {
                    &&& sorted_strict(k)
                    &&& forall|t: TypeKey| #[trigger] k.contains(t) <==> bundle_map(bundle@).contains_key(t)
                    &&& keys_after_placing(old(self).archetype_keys(), final(self).archetype_keys(), k)
                },
            final(self).same_tables(old(self)),
    {
        let ghost b = bundle@;
        let entity = self.allocator.allocate();
        self.spawned_this_frame = self.spawned_this_frame.wrapping_add(1);
        let ghost a1 = self.allocator;
        proof {
            assert forall|x: Entity| x != entity implies #[trigger] a1.handle_alive(x)
                == old(self).allocator.handle_alive(x) by {
                x.lemma_eq(entity);
            }
        }
        let idx = entity.index() as usize;
        if idx == self.locations.len() {
            self.locations.push(None);
            self.parents.push(None);
            self.children.push(None);
        } else {
            self.parents.set(idx, None);
            self.children.set(idx, None);
        }
        proof {
            Self::lemma_hier_spawn(
                old(self).allocator,
                self.allocator,
                old(self).children@,
                self.children@,
                old(self).births@,
                old(self).clock@,
                entity,
            );
        }
        proof {
            Self::lemma_links_spawn(
                old(self).allocator,
                self.allocator,
                old(self).parents@,
                self.parents@,
                old(self).children@,
                self.children@,
                old(self).births@,
                old(self).clock@,
                entity,
            );
        }
        self.births = Ghost(self.births@.insert(entity, self.clock@));
        self.clock = Ghost(self.clock@ + 1);
        assert(self.allocator == a1);
        proof {
            assert(forall|i: int|
                0 <= i < self.locations@.len() && i != idx ==> self.locations@[i] == old(
                    self,
                ).locations@[i]);
            assert forall|a: int, r: int|
                0 <= a < self.archetypes@.len() && 0 <= r < self.archetypes@[a].entities@.len()
                    implies #[trigger] Self::row_ok(
                    self.allocator,
                    self.locations@,
                    self.archetypes@,
                    a,
                    r,
                ) && self.archetypes@[a].entities@[r].index() != entity.index() by {
                assert(Self::row_ok(
                    old(self).allocator,
                    old(self).locations@,
                    old(self).archetypes@,
                    a,
                    r,
                ));
                let x = self.archetypes@[a].entities@[r];
                assert(old(self).allocator.slot_in_use(x.index() as int));
            }
            assert forall|i: int|
                0 <= i < self.locations@.len() && i != entity.index() && self.locations@[i].is_some()
                    implies #[trigger] Self::loc_ok(
                    self.allocator.generations(),
                    self.locations@,
                    self.archetypes@,
                    i,
                ) by {
                assert(Self::loc_ok(
                    old(self).allocator.generations(),
                    old(self).locations@,
                    old(self).archetypes@,
                    i,
                ));
            }
            assert forall|i: int|
                0 <= i < self.locations@.len() && i != entity.index() implies ((
                #[trigger] self.locations@[i]).is_some() <==> self.allocator.slot_in_use(i)) by {
                assert(old(self).locations@[i].is_some() <==> old(self).allocator.slot_in_use(i));
            }
            assert forall|a: int, r: int|
                0 <= a < self.archetypes@.len() && 0 <= r < self.archetypes@[a].entities@.len()
                    implies (#[trigger] self.archetypes@[a].entities@[r]).index() != entity.index() by {
                assert(Self::row_ok(
                    old(self).allocator,
                    old(self).locations@,
                    old(self).archetypes@,
                    a,
                    r,
                ));
                let x = self.archetypes@[a].entities@[r];
                assert(old(self).allocator.slot_in_use(x.index() as int));
            }
            assert(self.store_wf_except(entity));
            assert forall|x: Entity| x != entity implies {
                &&& (#[trigger] self.contains(x)) == old(self).contains(x)
                &&& self.components(x) == old(self).components(x)
                &&& self.parent_of(x) == old(self).parent_of(x)
                &&& self.children_of(x) == old(self).children_of(x)
            } by {
                if old(self).contains(x) {
                    assert(old(self).allocator.slot_in_use(x.index() as int));
                }
            }
        }
        let ghost mid = *self;
        let (ids, table) = bundle_parts(bundle);
        let key = archetype_key(ids);
        proof {
            assert forall|k: TypeKey| table.view().contains_key(k) <==> key@.contains(k) by {
                lemma_bundle_map_dom(b, k);
            }
        }
        let ghost m = table.view();
        let ghost key_seq = key@;
        let values = values_in_key_order(table, &key);
        let ghost vals = values@;
        self.place_row(entity, key, values);
        proof {
            assert(self.components(entity) =~= bundle_map(b)) by {
                assert forall|k: TypeKey| #[trigger] self.components(entity).contains_key(k) implies self.components(entity)[k] == m[k] by {
                    let j = key_seq.index_of(k);
                    assert(key_seq.contains(k));
                    lemma_sorted_index_of(key_seq, j);
                }
            }
            assert forall|t: TypeKey| #[trigger] key_seq.contains(t) <==> bundle_map(b).contains_key(t) by {
            }
            assert forall|x: Entity| x != entity implies {
                &&& (#[trigger] self.contains(x)) == old(self).contains(x)
                &&& self.components(x) == old(self).components(x)
                &&& self.parent_of(x) == old(self).parent_of(x)
                &&& self.children_of(x) == old(self).children_of(x)
            } by {
                assert(self.contains(x) == mid.contains(x));
                assert(mid.contains(x) == old(self).contains(x));
            }
            assert(self.slot_names() == old(self).slot_names());
            assert(self.tags() == old(self).tags());
            assert(self.slot_tags() == old(self).slot_tags());
        }
        entity
    }

    /// Spawn an entity with a single component.
    pub fn spawn_one(&mut self, type_id: TypeKey, component: V) -> (entity: Entity)
        requires
            old(self).wf(),
            old(self).can_spawn(),
        ensures
            final(self).spawned_count() == count_after(old(self).spawned_count(), 1),
            final(self).slot_count() <= old(self).slot_count() + 1,
            !old(self).handed_out().contains(entity),
            final(self).handed_out() == old(self).handed_out().insert(entity),
            old(self).handle_alive(entity) || (entity.generation() == 0 && entity.index() == old(
                self,
            ).slot_count()),
            forall|x: Entity| x != entity ==> #[trigger] final(self).handle_alive(x) == old(self).handle_alive(x),
            final(self).despawned_count() == old(self).despawned_count(),
            final(self).wf(),
            entity.index() == old(self).next_index(),
            entity.generation() == old(self).next_generation(),
            final(self).free_slot_count() == (if old(self).free_slot_count() > 0 {
                (old(self).free_slot_count() - 1) as nat
            } else {
                0
            }),
            final(self).free_slot_count() == 0 ==> final(self).next_generation() == 0,
            !old(self).contains(entity),
            final(self).contains(entity),
            final(self).components(entity) == Map::<TypeKey, V>::empty().insert(type_id, component),
            final(self).parent_of(entity) == None::<Entity>,
            final(self).children_of(entity) == None::<Seq<Entity>>,
            final(self).others_unchanged(old(self), entity),
            final(self).live_count() == old(self).live_count() + 1,
            final(self).same_tables(old(self)),
    {
        let mut bundle: Vec<(TypeKey, V)> = Vec::new();
        bundle.push((type_id, component));
        proof {
            assert(bundle@.drop_last() =~= Seq::<(TypeKey, V)>::empty());
            assert(bundle_map(Seq::<(TypeKey, V)>::empty()) == Map::<TypeKey, V>::empty());
        }
        self.spawn(bundle)
    }

    /// Spawn an entity with no components.
    pub fn spawn_empty(&mut self) -> (entity: Entity)
        requires
            old(self).wf(),
            old(self).can_spawn(),
        ensures
            final(self).spawned_count() == count_after(old(self).spawned_count(), 1),
            final(self).slot_count() <= old(self).slot_count() + 1,
            !old(self).handed_out().contains(entity),
            final(self).handed_out() == old(self).handed_out().insert(entity),
            old(self).handle_alive(entity) || (entity.generation() == 0 && entity.index() == old(
                self,
            ).slot_count()),
            forall|x: Entity| x != entity ==> #[trigger] final(self).handle_alive(x) == old(self).handle_alive(x),
            final(self).despawned_count() == old(self).despawned_count(),
            final(self).wf(),
            entity.index() == old(self).next_index(),
            entity.generation() == old(self).next_generation(),
            final(self).free_slot_count() == (if old(self).free_slot_count() > 0 {
                (old(self).free_slot_count() - 1) as nat
            } else {
                0
            }),
            final(self).free_slot_count() == 0 ==> final(self).next_generation() == 0,
            !old(self).contains(entity),
            final(self).contains(entity),
            final(self).components(entity) == Map::<TypeKey, V>::empty(),
            final(self).parent_of(entity) == None::<Entity>,
            final(self).children_of(entity) == None::<Seq<Entity>>,
            final(self).others_unchanged(old(self), entity),
            final(self).live_count() == old(self).live_count() + 1,
            final(self).same_tables(old(self)),
    {
        self.spawn(Vec::new())
    }

    /// The children list of `p`, empty when it has none.
    pub open spec fn kids_of(&self, p: Entity) -> Seq<Entity> {
        match self.children_of(p) {
            Some(s) => s,
            None => Seq::empty(),
        }
    }

    /// Listing a freshly spawned `c` under a live `p` keeps the hierarchy
    /// invariant.
    proof fn lemma_hier_link(
        alloc: EntityAllocator,
        children: Seq<Option<Vec<Entity>>>,
        children2: Seq<Option<Vec<Entity>>>,
        births: Map<Entity, nat>,
        clock: nat,
        p: Entity,
        c: Entity,
    )
        requires
            Self::hier_wf(alloc, children, births, clock),
            alloc.wf(),
            children.len() == alloc.generations().len(),
            alloc.holds(p),
            alloc.holds(c),
            p != c,
            births[c] + 1 == clock,
            forall|x: Entity| #[trigger] births.contains_key(x) && x != c ==> births[x] < births[c],
            Self::kids(children, c).len() == 0,
            forall|q: Entity, k: int|
                alloc.holds(q) && 0 <= k < Self::kids(children, q).len() ==> #[trigger] Self::kids(
                    children,
                    q,
                )[k] != c,
            children2.len() == children.len(),
            Self::kids(children2, p) == Self::kids(children, p).push(c),
            forall|i: int|
                0 <= i < children.len() && i != p.index() ==> #[trigger] children2[i] == children[i],
        ensures
            Self::hier_wf(alloc, children2, births, clock),
    {
        assert forall|q: Entity| alloc.holds(q) && q != p implies Self::kids(children2, q) == Self::kids(children, q) by {
            q.lemma_eq(p);
            if q.index() == p.index() {
                assert(alloc.slot_in_use(q.index() as int));
            }
        }
        assert forall|q: Entity, k: int|
            alloc.holds(q) && 0 <= k < Self::kids(children2, q).len() implies births.contains_key(
                #[trigger] Self::kids(children2, q)[k],
            ) && births[q] < births[Self::kids(children2, q)[k]] by {
            if q == p {
                if k < Self::kids(children, p).len() {
                    assert(Self::kids(children2, p)[k] == Self::kids(children, p)[k]);
                }
            } else {
                assert(Self::kids(children2, q) == Self::kids(children, q));
            }
        }
        assert forall|q: Entity| alloc.holds(q) implies (#[trigger] Self::kids(children2, q)).no_duplicates() by {
            if q == p {
                let s = Self::kids(children, p);
                assert forall|i: int, j: int| 0 <= i < j < s.push(c).len() implies s.push(c)[i] != s.push(c)[j] by {
                    if j == s.len() {
                        assert(s[i] != c);
                    }
                }
            } else {
                assert(Self::kids(children2, q) == Self::kids(children, q));
            }
        }
        assert forall|q: Entity, r: Entity, k: int, l: int|
            alloc.holds(q) && alloc.holds(r) && 0 <= k < Self::kids(children2, q).len() && 0 <= l
                < Self::kids(children2, r).len() && #[trigger] Self::kids(children2, q)[k]
                == #[trigger] Self::kids(children2, r)[l] implies q == r by {
            let s = Self::kids(children, p);
            if q == p && r != p {
                assert(Self::kids(children2, r) == Self::kids(children, r));
                if k == s.len() {
                    assert(Self::kids(children, r)[l] != c);
                } else {
                    assert(Self::kids(children2, q)[k] == s[k]);
                }
            } else if r == p && q != p {
                assert(Self::kids(children2, q) == Self::kids(children, q));
                if l == s.len() {
                    assert(Self::kids(children, q)[k] != c);
                } else {
                    assert(Self::kids(children2, r)[l] == s[l]);
                }
            } else if q != p && r != p {
                assert(Self::kids(children2, q) == Self::kids(children, q));
                assert(Self::kids(children2, r) == Self::kids(children, r));
            }
        }
    }

    /// Dropping `e` from the children list of a live `p` keeps the
    /// hierarchy invariant.
    proof fn lemma_hier_unlink(
        alloc: EntityAllocator,
        children: Seq<Option<Vec<Entity>>>,
        children2: Seq<Option<Vec<Entity>>>,
        births: Map<Entity, nat>,
        clock: nat,
        p: Entity,
        e: Entity,
    )
        requires
            Self::hier_wf(alloc, children, births, clock),
            alloc.wf(),
            children.len() == alloc.generations().len(),
            alloc.holds(p),
            children2.len() == children.len(),
            Self::kids(children2, p) == Self::kids(children, p).filter(other_than(e)),
            forall|i: int|
                0 <= i < children.len() && i != p.index() ==> #[trigger] children2[i] == children[i],
        ensures
            Self::hier_wf(alloc, children2, births, clock),
    {
        let s = Self::kids(children, p);
        lemma_without(s, e);
        assert forall|q: Entity| alloc.holds(q) && q != p implies Self::kids(children2, q) == Self::kids(children, q) by {
            q.lemma_eq(p);
            if q.index() == p.index() {
                assert(alloc.slot_in_use(q.index() as int));
            }
        }
        assert forall|q: Entity, k: int|
            alloc.holds(q) && 0 <= k < Self::kids(children2, q).len() implies births.contains_key(
                #[trigger] Self::kids(children2, q)[k],
            ) && births[q] < births[Self::kids(children2, q)[k]] by {
            if q == p {
                let x = Self::kids(children2, p)[k];
                assert(Self::kids(children2, p).contains(x));
                let j = s.index_of(x);
                assert(s[j] == x);
            } else {
                assert(Self::kids(children2, q) == Self::kids(children, q));
            }
        }
        assert forall|q: Entity| alloc.holds(q) implies (#[trigger] Self::kids(children2, q)).no_duplicates() by {
            if q != p {
                assert(Self::kids(children2, q) == Self::kids(children, q));
            }
        }
        assert forall|q: Entity, r: Entity, k: int, l: int|
            alloc.holds(q) && alloc.holds(r) && 0 <= k < Self::kids(children2, q).len() && 0 <= l
                < Self::kids(children2, r).len() && #[trigger] Self::kids(children2, q)[k]
                == #[trigger] Self::kids(children2, r)[l] implies q == r by {
            let x = Self::kids(children2, q)[k];
            assert(Self::kids(children2, q).contains(x));
            assert(Self::kids(children2, r).contains(x));
            if q != p {
                assert(Self::kids(children2, q) == Self::kids(children, q));
            }
            if r != p {
                assert(Self::kids(children2, r) == Self::kids(children, r));
            }
            let a = Self::kids(children, q).index_of(x);
            let b = Self::kids(children, r).index_of(x);
            assert(Self::kids(children, q)[a] == Self::kids(children, r)[b]);
        }
    }

    /// Spawn an entity with a bundle of components as a child of a live
    /// `parent`: the child records its parent, and is appended to the
    /// parent's children list (which is created if the parent had none).
    #[verifier::spinoff_prover]
    #[verifier::rlimit(40)]
    pub fn spawn_child(&mut self, parent: Entity, bundle: Vec<(TypeKey, V)>) -> (child: Entity)
        requires
            old(self).wf(),
            old(self).contains(parent),
            old(self).can_spawn(),
        ensures
            final(self).spawned_count() == count_after(old(self).spawned_count(), 1),
            final(self).slot_count() <= old(self).slot_count() + 1,
            !old(self).handed_out().contains(child),
            final(self).handed_out() == old(self).handed_out().insert(child),
            old(self).handle_alive(child) || (child.generation() == 0 && child.index() == old(
                self,
            ).slot_count()),
            forall|x: Entity| x != child ==> #[trigger] final(self).handle_alive(x) == old(self).handle_alive(x),
            final(self).despawned_count() == old(self).despawned_count(),
            final(self).wf(),
            child.index() == old(self).next_index(),
            child.generation() == old(self).next_generation(),
            final(self).free_slot_count() == (if old(self).free_slot_count() > 0 {
                (old(self).free_slot_count() - 1) as nat
            } else {
                0
            }),
            final(self).free_slot_count() == 0 ==> final(self).next_generation() == 0,
            !old(self).contains(child),
            final(self).contains(child),
            final(self).components(child) == bundle_map(bundle@),
            final(self).parent_of(child) == Some(parent),
            final(self).children_of(child) == None::<Seq<Entity>>,
            final(self).contains(parent),
            final(self).components(parent) == old(self).components(parent),
            final(self).parent_of(parent) == old(self).parent_of(parent),
            final(self).children_of(parent) == Some(old(self).kids_of(parent).push(child)),
            forall|x: Entity|
                x != child && x != parent ==> {
                    &&& (#[trigger] final(self).contains(x)) == old(self).contains(x)
                    &&& final(self).components(x) == old(self).components(x)
                    &&& final(self).parent_of(x) == old(self).parent_of(x)
                    &&& final(self).children_of(x) == old(self).children_of(x)
                },
            final(self).live_count() == old(self).live_count() + 1,
            final(self).same_tables(old(self)),
    {
        let ghost w0 = *old(self);
        let child = self.spawn_inner(bundle);
        let ghost w1 = *self;
        let cidx = child.index() as usize;
        let pidx = parent.index() as usize;
        proof {
            assert(w0.allocator.slot_in_use(parent.index() as int));
            assert(w1.contains(parent));
            assert(parent != child);
            assert(w1.allocator.holds(child));
            assert(w1.allocator.slot_in_use(parent.index() as int));
            assert(w1.allocator.slot_in_use(child.index() as int));
            parent.lemma_eq(child);
        }
        self.parents.set(cidx, Some(parent));
        let mut list: Vec<Entity> = match &self.children[pidx] {
            Some(v) => copy_vec(v),
            None => Vec::new(),
        };
        let ghost before = list@;
        list.push(child);
        self.children.set(pidx, Some(list));
        proof {
            assert(before == Self::kids(w1.children@, parent));
            assert(Self::kids(self.children@, parent) == Self::kids(w1.children@, parent).push(child));
            assert forall|x: Entity| #[trigger] w1.births@.contains_key(x) && x != child implies w1.births@[x]
                < w1.births@[child] by {
                assert(w0.births@.contains_key(x));
            }
            assert(Self::kids(w1.children@, child).len() == 0);
            assert forall|q: Entity, k: int|
                w1.allocator.holds(q) && 0 <= k < Self::kids(w1.children@, q).len()
                    implies #[trigger] Self::kids(w1.children@, q)[k] != child by {
                if q == child {
                } else {
                    q.lemma_eq(child);
                    assert(w1.contains(q));
                    assert(w0.contains(q));
                    assert(w1.children@[q.index() as int] == w0.children@[q.index() as int]);
                    assert(Self::kids(w1.children@, q) == Self::kids(w0.children@, q));
                    assert(w0.births@.contains_key(Self::kids(w0.children@, q)[k]));
                }
            }
            Self::lemma_hier_link(
                w1.allocator,
                w1.children@,
                self.children@,
                w1.births@,
                w1.clock@,
                parent,
                child,
            );
            assert(self.parents@ == w1.parents@.update(child.index() as int, Some(parent)));
            Self::lemma_links_link(
                w1.allocator,
                w1.parents@,
                self.parents@,
                w1.children@,
                self.children@,
                parent,
                child,
            );
            assert(self.wf());
            assert(w1.kids_of(parent) == w0.kids_of(parent));
            assert forall|x: Entity|
                x != child && x != parent implies {
                    &&& (#[trigger] self.contains(x)) == w0.contains(x)
                    &&& self.components(x) == w0.components(x)
                    &&& self.parent_of(x) == w0.parent_of(x)
                    &&& self.children_of(x) == w0.children_of(x)
                } by {
                assert(self.contains(x) == w1.contains(x));
                if self.contains(x) {
                    x.lemma_eq(child);
                    x.lemma_eq(parent);
                    assert(w1.allocator.slot_in_use(x.index() as int));
                }
            }
        }
        assert(self.allocator == w1.allocator);
        assert forall|x: Entity| x != child implies #[trigger] self.handle_alive(x) == w0.handle_alive(x) by {
            assert(w1.handle_alive(x) == w0.handle_alive(x));
        }
        child
    }

    // ── Component access ──────────────────────────────────────────────

    /// Where the component of kind `type_id` of `entity` is stored, if the
    /// entity is alive and has one: archetype, column and row.
    fn cell_of(&self, entity: Entity, type_id: TypeKey) -> (r: Option<(usize, usize, usize)>)
        requires
            self.wf(),
        ensures
            match r {
                Some((a, j, row)) => {
                    &&& self.contains(entity)
                    &&& self.components(entity).contains_key(type_id)
                    &&& a < self.archetypes@.len()
                    &&& j < self.archetypes@[a as int].columns@.len()
                    &&& row < self.archetypes@[a as int].entities@.len()
                    &&& self.locations@[entity.index() as int] == Some(
                        EntityLocation { archetype: a, row },
                    )
                    &&& self.archetypes@[a as int].key@[j as int] == type_id
                    &&& self.archetypes@[a as int].columns@[j as int]@[row as int]
                        == self.components(entity)[type_id]
                },
                None => !(self.contains(entity) && self.components(entity).contains_key(type_id)),
            },
    {
        if !self.allocator.is_alive(entity) {
            return None;
        }
        let idx = entity.index() as usize;
        let loc = match self.locations[idx] {
            Some(l) => l,
            None => {
                assert(!self.allocator.slot_in_use(idx as int));
                return None;
            },
        };
        proof {
            assert(self.allocator.slot_in_use(idx as int));
            assert(Self::loc_ok(self.allocator.generations(), self.locations@, self.archetypes@, idx as int));
            assert(self.archetypes@[loc.archetype as int].wf());
        }
        match self.archetypes[loc.archetype].column_of(type_id) {
            Some(j) => {
                proof {
                    lemma_sorted_index_of(self.archetypes@[loc.archetype as int].key@, j as int);
                }
                Some((loc.archetype, j, loc.row))
            },
            None => None,
        }
    }

    spec fn cell_replaced(w: Self, w2: Self, a: int, j: int, row: int, x: V) -> bool {
        &&& w2.allocator == w.allocator
        &&& w2.locations == w.locations
        &&& w2.parents == w.parents
        &&& w2.children == w.children
        &&& w2.resources == w.resources
        &&& w2.names == w.names
        &&& w2.names_reverse == w.names_reverse
        &&& w2.tags == w.tags
        &&& w2.entity_tags == w.entity_tags
        &&& w2.births == w.births
        &&& w2.clock == w.clock
        &&& w2.archetypes@.len() == w.archetypes@.len()
        &&& forall|b: int| 0 <= b < w.archetypes@.len() && b != a ==> w2.archetypes@[b] == w.archetypes@[b]
        &&& w2.archetypes@[a].key == w.archetypes@[a].key
        &&& w2.archetypes@[a].entities == w.archetypes@[a].entities
        &&& w2.archetypes@[a].columns@.len() == w.archetypes@[a].columns@.len()
        &&& forall|c: int|
            0 <= c < w.archetypes@[a].columns@.len() && c != j ==> w2.archetypes@[a].columns@[c]
                == w.archetypes@[a].columns@[c]
        &&& w2.archetypes@[a].columns@[j]@ == w.archetypes@[a].columns@[j]@.update(row, x)
    }

    proof fn lemma_cell_replaced(w: Self, a: int, j: int, row: int, e: Entity, t: TypeKey, x: V)
        requires
            w.wf(),
            w.contains(e),
            0 <= a < w.archetypes@.len(),
            0 <= j < w.archetypes@[a].columns@.len(),
            0 <= row < w.archetypes@[a].entities@.len(),
            w.locations@[e.index() as int].is_some(),
            w.locations@[e.index() as int].unwrap().archetype == a,
            w.locations@[e.index() as int].unwrap().row == row,
            w.archetypes@[a].key@[j] == t,
        ensures
            forall|w2: Self| #[trigger] w2.wf() <== Self::cell_replaced(w, w2, a, j, row, x),
            forall|w2: Self| #[trigger] w2.others_unchanged(&w, e) <== Self::cell_replaced(w, w2, a, j, row, x),
    {
        assert forall|w2: Self| Self::cell_replaced(w, w2, a, j, row, x) implies #[trigger] w2.wf() by {
            Self::lemma_cell_replaced_wf(w, w2, a, j, row, e, x);
        }
        assert forall|w2: Self| Self::cell_replaced(w, w2, a, j, row, x) implies #[trigger] w2.others_unchanged(&w, e) by {
            Self::lemma_cell_replaced_others(w, w2, a, j, row, e, x);
        }
    }

    proof fn lemma_cell_replaced_wf(w: Self, w2: Self, a: int, j: int, row: int, e: Entity, x: V)
        requires
            w.wf(),
            0 <= a < w.archetypes@.len(),
            0 <= j < w.archetypes@[a].columns@.len(),
            0 <= row < w.archetypes@[a].entities@.len(),
            Self::cell_replaced(w, w2, a, j, row, x),
        ensures
            w2.wf(),
    {
        assert(w2.archetypes@[a].wf()) by {
            assert(w.archetypes@[a].wf());
            assert forall|c: int|
                0 <= c < w2.archetypes@[a].columns@.len() implies (#[trigger] w2.archetypes@[a].columns@[c])@.len()
                == w2.archetypes@[a].entities@.len() by {
                assert(w.archetypes@[a].columns@[c]@.len() == w.archetypes@[a].entities@.len());
            }
        }
        assert forall|b: int| 0 <= b < w2.archetypes@.len() implies (#[trigger] w2.archetypes@[b]).wf() by {
            if b != a {
                assert(w.archetypes@[b].wf());
            }
        }
        assert forall|b: int, r: int|
            0 <= b < w2.archetypes@.len() && 0 <= r < w2.archetypes@[b].entities@.len()
                implies #[trigger] Self::row_ok(w2.allocator, w2.locations@, w2.archetypes@, b, r) by {
            assert(Self::row_ok(w.allocator, w.locations@, w.archetypes@, b, r));
        }
        assert forall|i: int|
            0 <= i < w2.locations@.len() && w2.locations@[i].is_some() implies #[trigger] Self::loc_ok(
            w2.allocator.generations(),
            w2.locations@,
            w2.archetypes@,
            i,
        ) by {
            assert(Self::loc_ok(w.allocator.generations(), w.locations@, w.archetypes@, i));
        }
        assert(w2.store_wf());
        assert(w2.tables_wf());
    }

    proof fn lemma_cell_replaced_others(w: Self, w2: Self, a: int, j: int, row: int, e: Entity, x: V)
        requires
            w.wf(),
            w.contains(e),
            0 <= a < w.archetypes@.len(),
            0 <= j < w.archetypes@[a].columns@.len(),
            0 <= row < w.archetypes@[a].entities@.len(),
            w.locations@[e.index() as int].is_some(),
            w.locations@[e.index() as int].unwrap().archetype == a,
            w.locations@[e.index() as int].unwrap().row == row,
            Self::cell_replaced(w, w2, a, j, row, x),
        ensures
            w2.others_unchanged(&w, e),
    {
        assert forall|y: Entity| y != e implies {
            &&& (#[trigger] w2.contains(y)) == w.contains(y)
            &&& w2.components(y) == w.components(y)
            &&& w2.parent_of(y) == w.parent_of(y)
            &&& w2.children_of(y) == w.children_of(y)
        } by {
            if w.contains(y) {
                y.lemma_eq(e);
                let l = w.locations@[y.index() as int].unwrap();
                assert(w.locations@[y.index() as int].is_some());
                assert(Self::loc_ok(w.allocator.generations(), w.locations@, w.archetypes@, y.index() as int));
                assert(Self::row_ok(w.allocator, w.locations@, w.archetypes@, l.archetype as int, l.row as int));
                assert(!(l.archetype == a && l.row == row)) by {
                    if l.archetype == a && l.row == row {
                        assert(Self::loc_ok(w.allocator.generations(), w.locations@, w.archetypes@, e.index() as int));
                    }
                }
                assert(w2.archetypes@[l.archetype as int].row_components(l.row as int)
                    =~= w.archetypes@[l.archetype as int].row_components(l.row as int));
            }
        }
    }

    /// The component of kind `type_id` of `entity`, if the entity is alive
    /// and has one.
    pub fn get(&self, entity: Entity, type_id: TypeKey) -> (r: Option<&V>)
        requires
            self.wf(),
        ensures
            match r {
                Some(v) => {
                    &&& self.contains(entity)
                    &&& self.components(entity).contains_key(type_id)
                    &&& *v == self.components(entity)[type_id]
                },
                None => !(self.contains(entity) && self.components(entity).contains_key(type_id)),
            },
    {
        match self.cell_of(entity, type_id) {
            Some((a, j, row)) => Some(&self.archetypes[a].columns[j][row]),
            None => None,
        }
    }

    /// Mutable access to the component of kind `type_id` of `entity`, if the
    /// entity is alive and has one.
    pub fn get_mut(&mut self, entity: Entity, type_id: TypeKey) -> (r: Option<&mut V>)
        requires
            old(self).wf(),
        ensures
            final(self).spawned_count() == old(self).spawned_count(),
            final(self).slot_count() == old(self).slot_count(),
            final(self).handed_out() == old(self).handed_out(),
            final(self).despawned_count() == old(self).despawned_count(),
            final(self).wf(),
            match r {
                Some(v) => {
                    &&& old(self).contains(entity)
                    &&& old(self).components(entity).contains_key(type_id)
                    &&& *v == old(self).components(entity)[type_id]
                    &&& final(self).components(entity) == old(self).components(entity).insert(
                        type_id,
                        *final(v),
                    )
                },
                None => {
                    &&& !(old(self).contains(entity) && old(self).components(
                        entity,
                    ).contains_key(type_id))
                    &&& final(self).components(entity) == old(self).components(entity)
                },
            },
            forall|x: Entity| #[trigger] final(self).contains(x) == old(self).contains(x),
            final(self).others_unchanged(old(self), entity),
            final(self).parent_of(entity) == old(self).parent_of(entity),
            final(self).children_of(entity) == old(self).children_of(entity),
            final(self).live_count() == old(self).live_count(),
            final(self).archetype_keys() == old(self).archetype_keys(),
            final(self).next_index() == old(self).next_index(),
            final(self).next_generation() == old(self).next_generation(),
            final(self).can_spawn() == old(self).can_spawn(),
            final(self).same_tables(old(self)),
    {
        match self.cell_of(entity, type_id) {
            Some((a, j, row)) => {
                let ghost w = *old(self);
                let arch = &mut self.archetypes[a];
                let col = &mut arch.columns[j];
                let v = &mut col[row];
                proof {
                    Self::lemma_cell_replaced(w, a as int, j as int, row as int, entity, type_id, *final(v));
                }
                Some(v)
            },
            None => None,
        }
    }

    /// Add a component to a live entity, moving it to the archetype of its
    /// new set of kinds. A component of the same kind is replaced in place.
    #[verifier::spinoff_prover]
    pub fn insert(&mut self, entity: Entity, type_id: TypeKey, component: V)
        requires
            old(self).wf(),
            old(self).contains(entity),
        ensures
            final(self).spawned_count() == old(self).spawned_count(),
            final(self).slot_count() == old(self).slot_count(),
            final(self).handed_out() == old(self).handed_out(),
            final(self).despawned_count() == old(self).despawned_count(),
            final(self).wf(),
            final(self).contains(entity),
            final(self).components(entity) == old(self).components(entity).insert(
                type_id,
                component,
            ),
            final(self).parent_of(entity) == old(self).parent_of(entity),
            final(self).children_of(entity) == old(self).children_of(entity),
            final(self).others_unchanged(old(self), entity),
            final(self).live_count() == old(self).live_count(),
            final(self).next_index() == old(self).next_index(),
            final(self).next_generation() == old(self).next_generation(),
            final(self).can_spawn() == old(self).can_spawn(),
            old(self).components(entity).contains_key(type_id) ==> final(self).archetype_keys()
                == old(self).archetype_keys(),
            !old(self).components(entity).contains_key(type_id) ==> exists|k: Seq<TypeKey>|
                {
                    &&& sorted_strict(k)
                    &&& forall|t: TypeKey| #[trigger]
                        k.contains(t) <==> old(self).components(entity).insert(
                            type_id,
                            component,
                        ).contains_key(t)
                    &&& keys_after_placing(
                        old(self).archetype_keys(),
                        final(self).archetype_keys(),
                        k,
                    )
                },
            final(self).same_tables(old(self)),
    {
        match self.cell_of(entity, type_id) {
            Some((a, j, row)) => {
                proof {
                    Self::lemma_cell_replaced(
                        *old(self),
                        a as int,
                        j as int,
                        row as int,
                        entity,
                        type_id,
                        component,
                    );
                }
                let ghost before = self.archetypes@[a as int];
                self.archetypes[a].columns[j].set(row, component);
                proof {
                    assert(Self::cell_replaced(*old(self), *self, a as int, j as int, row as int, component));
                    assert(self.wf());
                    assert(self.others_unchanged(old(self), entity));
                    lemma_sorted_index_of(self.archetypes@[a as int].key@, j as int);
                    assert(self.components(entity) =~= old(self).components(entity).insert(
                        type_id,
                        component,
                    ));
                }
            },
            None => {
                let ghost m = old(self).components(entity);
                let (key, values) = self.take_entity_row(entity);
                let ghost mid = *self;
                let p = sorted_position(&key, type_id);
                proof {
                    assert(!key@.contains(type_id));
                    lemma_insert_sorted(key@, p as int, type_id);
                }
                let ghost ok = key@;
                let ghost ov = values@;
                let mut new_key = key;
                new_key.insert(p, type_id);
                let mut new_values = values;
                new_values.insert(p, component);
                let ghost nk = new_key@;
                let ghost nv = new_values@;
                self.place_row(entity, new_key, new_values);
                proof {
                    assert forall|k: TypeKey| #[trigger] self.components(entity).contains_key(k)
                        implies self.components(entity)[k] == m.insert(type_id, component)[k] by {
                        let i = nk.index_of(k);
                        assert(nk.contains(k));
                        lemma_sorted_index_of(nk, i);
                        if k != type_id {
                            assert(ok.contains(k));
                            let oi = ok.index_of(k);
                            lemma_sorted_index_of(ok, oi);
                            if oi < p {
                                assert(nk[oi] == k);
                                lemma_sorted_index_of(nk, oi);
                            } else {
                                assert(nk[oi + 1] == k);
                                lemma_sorted_index_of(nk, oi + 1);
                            }
                        } else {
                            assert(nk[p as int] == type_id);
                            lemma_sorted_index_of(nk, p as int);
                        }
                    }
                    assert(self.components(entity) =~= m.insert(type_id, component));
                    assert forall|x: Entity| x != entity implies {
                        &&& (#[trigger] self.contains(x)) == old(self).contains(x)
                        &&& self.components(x) == old(self).components(x)
                        &&& self.parent_of(x) == old(self).parent_of(x)
                        &&& self.children_of(x) == old(self).children_of(x)
                    } by {
                        assert(self.contains(x) == mid.contains(x));
                    }
                    assert(forall|t: TypeKey| #[trigger] nk.contains(t) <==> m.insert(type_id, component).contains_key(t));
                }
            },
        }
    }

    /// Remove the component of kind `type_id` from a live entity, moving it
    /// to the archetype of its remaining kinds. Returns whether it had one.
    pub fn remove(&mut self, entity: Entity, type_id: TypeKey) -> (r: bool)
        requires
            old(self).wf(),
            old(self).contains(entity),
        ensures
            final(self).spawned_count() == old(self).spawned_count(),
            final(self).slot_count() == old(self).slot_count(),
            final(self).handed_out() == old(self).handed_out(),
            final(self).despawned_count() == old(self).despawned_count(),
            final(self).wf(),
            r == old(self).components(entity).contains_key(type_id),
            final(self).contains(entity),
            final(self).components(entity) == old(self).components(entity).remove(type_id),
            final(self).parent_of(entity) == old(self).parent_of(entity),
            final(self).children_of(entity) == old(self).children_of(entity),
            final(self).others_unchanged(old(self), entity),
            final(self).live_count() == old(self).live_count(),
            final(self).next_index() == old(self).next_index(),
            final(self).next_generation() == old(self).next_generation(),
            final(self).can_spawn() == old(self).can_spawn(),
            !r ==> final(self).archetype_keys() == old(self).archetype_keys(),
            r ==> exists|k: Seq<TypeKey>|
                {
                    &&& sorted_strict(k)
                    &&& forall|t: TypeKey| #[trigger]
                        k.contains(t) <==> old(self).components(entity).remove(type_id).contains_key(t)
                    &&& keys_after_placing(
                        old(self).archetype_keys(),
                        final(self).archetype_keys(),
                        k,
                    )
                },
            final(self).same_tables(old(self)),
    {
        if self.cell_of(entity, type_id).is_none() {
            assert(old(self).components(entity).remove(type_id) =~= old(self).components(entity));
            return false;
        }
        let ghost m = old(self).components(entity);
        let (key, values) = self.take_entity_row(entity);
        let ghost mid = *self;
        let j = match key_position(&key, type_id) {
            Some(j) => j,
            None => {
                assert(false);
                0
            },
        };
        proof {
            lemma_remove_sorted(key@, j as int);
        }
        let ghost ok = key@;
        let mut new_key = key;
        new_key.remove(j);
        let mut new_values = values;
        let _ = new_values.remove(j);
        let ghost nk = new_key@;
        self.place_row(entity, new_key, new_values);
        proof {
            assert forall|k: TypeKey| #[trigger] self.components(entity).contains_key(k)
                implies self.components(entity)[k] == m.remove(type_id)[k] by {
                let i = nk.index_of(k);
                assert(nk.contains(k));
                lemma_sorted_index_of(nk, i);
                let oi = if i < j { i } else { i + 1 };
                assert(ok[oi] == k);
                lemma_sorted_index_of(ok, oi);
            }
            assert(self.components(entity) =~= m.remove(type_id));
            assert forall|x: Entity| x != entity implies {
                &&& (#[trigger] self.contains(x)) == old(self).contains(x)
                &&& self.components(x) == old(self).components(x)
                &&& self.parent_of(x) == old(self).parent_of(x)
                &&& self.children_of(x) == old(self).children_of(x)
            } by {
                assert(self.contains(x) == mid.contains(x));
            }
            assert(forall|t: TypeKey| #[trigger] nk.contains(t) <==> m.remove(type_id).contains_key(t));
        }
        true
    }

    /// Remove `entity` from the tags listed for its slot and drop the
    /// slot's tag list.
    fn untag_despawned(&mut self, entity: Entity)
        requires
            old(self).wf(),
            old(self).contains(entity),
        ensures
            final(self).spawned_count() == old(self).spawned_count(),
            final(self).slot_count() == old(self).slot_count(),
            final(self).handed_out() == old(self).handed_out(),
            final(self).despawned_count() == old(self).despawned_count(),
            final(self).wf(),
            final(self).tags() == Self::tags_without(
                old(self).tags(),
                if old(self).slot_tags().contains_key(entity.index()) {
                    old(self).slot_tags()[entity.index()]
                } else {
                    Seq::empty()
                },
                entity,
            ),
            (forall|t: Seq<char>|
                #[trigger] old(self).tags().contains_key(t) && old(self).tags()[t].contains(entity)
                    ==> old(self).slot_tags().contains_key(entity.index()) && old(self).slot_tags()[entity.index()].contains(t))
                ==> forall|t: Seq<char>|
                #[trigger] final(self).tags().contains_key(t) ==> !final(self).tags()[t].contains(entity),
            final(self).slot_tags() == old(self).slot_tags().remove(entity.index()),
            final(self).resources() == old(self).resources(),
            final(self).names() == old(self).names(),
            final(self).slot_names() == old(self).slot_names(),
            final(self).same_entities(old(self)),
            final(self).allocator == old(self).allocator,
            final(self).archetypes == old(self).archetypes,
            final(self).locations == old(self).locations,
            final(self).parents == old(self).parents,
            final(self).children == old(self).children,
            final(self).births == old(self).births,
            final(self).clock == old(self).clock,
    {
        broadcast use vstd::seq_lib::group_seq_properties;

        let idx = entity.index();
        let ghost st = old(self).slot_tags();
        let list: Vec<String> = match self.entity_tags.get(&idx) {
            Some(l) => copy_strings(l),
            None => Vec::new(),
        };
        let ghost l = strings_view(list@);
        assert(l == if st.contains_key(idx) {
            st[idx]
        } else {
            Seq::empty()
        });
        let mut k: usize = 0;
        while k < list.len()
            invariant
                k <= list@.len(),
                l == strings_view(list@),
                self.wf(),
                self.tags() == Self::tags_without(old(self).tags(), l.take(k as int), entity),
                self.entity_tags == old(self).entity_tags,
                self.resources() == old(self).resources(),
                self.names() == old(self).names(),
                self.slot_names() == old(self).slot_names(),
                self.same_entities(old(self)),
                self.allocator == old(self).allocator,
                self.archetypes == old(self).archetypes,
                self.locations == old(self).locations,
                self.parents == old(self).parents,
                self.children == old(self).children,
                self.births == old(self).births,
                self.clock == old(self).clock,
                self.spawned_this_frame == old(self).spawned_this_frame,
                self.despawned_this_frame == old(self).despawned_this_frame,
            decreases list@.len() - k,
        {
            let ghost before = self.tags();
            let ghost prev = *self;
            let ghost before_view = self.tags.view();
            let t = &list[k];
            let ghost mut fs: Seq<Entity> = Seq::empty();
            let now_empty = match self.tags.get_mut(t) {
                Some(set) => {
                    remove_entity(set, entity);
                    let n = set.len();
                    proof {
                        fs = set@;
                        if n == 0 {
                            assert(set@.to_set() =~= Set::<Entity>::empty());
                        } else {
                            assert(set@.to_set().contains(set@[0]));
                        }
                    }
                    n == 0
                },
                None => false,
            };
            let ghost mid_view = self.tags.view();
            if now_empty {
                self.tags.remove(t);
            }
            proof {
                assert(l.take(k + 1).drop_last() =~= l.take(k as int));
                assert(l.take(k + 1).last() == t@);
                if before_view.contains_key(t@) {
                    assert(mid_view == before_view.insert(t@, mid_view[t@]));
                    assert(mid_view[t@]@ == fs);
                    assert(fs.to_set() == before_view[t@]@.to_set().remove(entity));
                    assert(before[t@] == before_view[t@]@.to_set());
                    if now_empty {
                        assert(self.tags.view() == before_view.remove(t@)) by {
                            assert(self.tags.view() =~= before_view.remove(t@));
                        }
                    }
                } else {
                    assert(!before.contains_key(t@));
                }
                assert forall|u: Seq<char>| #[trigger] self.tags.view().contains_key(u) implies self.tags.view()[u]@.no_duplicates() by {
                    if u != t@ {
                        assert(before_view.contains_key(u));
                    }
                }
                assert(self.tags() =~= Self::tag_without(before, t@, entity));
                Self::lemma_same_store(self, &prev);
            }
            k = k + 1;
        }
        proof {
            assert(l.take(k as int) =~= l);
            Self::lemma_tags_without(old(self).tags(), l, entity);
        }
        let ghost pre = *self;
        let _ = self.entity_tags.remove(&idx);
        proof {
            assert(self.slot_tags() =~= st.remove(idx));
            Self::lemma_same_store(self, &pre);
        }
    }

    /// Despawn an entity: free its name and tags, drop its components and
    /// links, and free its slot for reuse with a bumped generation. Returns
    /// `false`, changing nothing, for a handle that is not alive.
    pub fn despawn(&mut self, entity: Entity) -> (r: bool)
        requires
            old(self).wf(),
            old(self).handle_alive(entity) ==> old(self).contains(entity),
            old(self).contains(entity) ==> entity.generation() < u32::MAX,
        ensures
            r && (forall|n: Seq<char>|
                #[trigger] old(self).names().contains_key(n) && old(self).names()[n] == entity
                    ==> old(self).slot_names().contains_key(entity.index()) && old(self).slot_names()[entity.index()] == n)
                ==> forall|n: Seq<char>| #[trigger] final(self).names().contains_key(n) ==> final(self).names()[n]
                != entity,
            final(self).spawned_count() == old(self).spawned_count(),
            final(self).slot_count() == old(self).slot_count(),
            final(self).handed_out() == old(self).handed_out(),
            final(self).despawned_count() == if r {
                count_after(old(self).despawned_count(), 1)
            } else {
                old(self).despawned_count()
            },
            final(self).wf(),
            r == old(self).contains(entity),
            !final(self).contains(entity),
            !final(self).handle_alive(entity),
            !r ==> *final(self) == *old(self),
            r ==> final(self).others_unchanged(old(self), entity),
            r ==> final(self).live_count() == old(self).live_count() - 1,
            r ==> final(self).next_index() == entity.index(),
            r ==> final(self).next_generation() == entity.generation() + 1,
            r ==> final(self).can_spawn(),
            r ==> final(self).archetype_keys() == old(self).archetype_keys(),
            r ==> final(self).resources() == old(self).resources(),
            r ==> final(self).names() == Self::names_without(
                old(self).names(),
                old(self).slot_names(),
                entity.index(),
            ),
            r ==> final(self).slot_names() == old(self).slot_names().remove(entity.index()),
            r ==> final(self).tags() == Self::tags_without(
                old(self).tags(),
                if old(self).slot_tags().contains_key(entity.index()) {
                    old(self).slot_tags()[entity.index()]
                } else {
                    Seq::empty()
                },
                entity,
            ),
            r ==> final(self).slot_tags() == old(self).slot_tags().remove(entity.index()),
            r && (forall|t: Seq<char>|
                #[trigger] old(self).tags().contains_key(t) && old(self).tags()[t].contains(entity)
                    ==> old(self).slot_tags().contains_key(entity.index()) && old(self).slot_tags()[entity.index()].contains(t))
                ==> forall|t: Seq<char>| #[trigger] final(self).tags().contains_key(t)
                ==> !final(self).tags()[t].contains(entity),
    {
        self.despawn_inner(entity)
    }

    /// `despawn`, which leaves the spawn record alone.
    fn despawn_inner(&mut self, entity: Entity) -> (r: bool)
        requires
            old(self).wf(),
            old(self).handle_alive(entity) ==> old(self).contains(entity),
            old(self).contains(entity) ==> entity.generation() < u32::MAX,
        ensures
            final(self).spawned_count() == old(self).spawned_count(),
            final(self).slot_count() == old(self).slot_count(),
            final(self).handed_out() == old(self).handed_out(),
            final(self).despawned_count() == if r {
                count_after(old(self).despawned_count(), 1)
            } else {
                old(self).despawned_count()
            },
            final(self).births == old(self).births,
            final(self).clock == old(self).clock,
            final(self).wf(),
            r == old(self).contains(entity),
            !final(self).contains(entity),
            !final(self).handle_alive(entity),
            !r ==> *final(self) == *old(self),
            r ==> final(self).others_unchanged(old(self), entity),
            r ==> final(self).live_count() == old(self).live_count() - 1,
            r ==> final(self).next_index() == entity.index(),
            r ==> final(self).next_generation() == entity.generation() + 1,
            r ==> final(self).can_spawn(),
            r ==> final(self).archetype_keys() == old(self).archetype_keys(),
            r ==> final(self).resources() == old(self).resources(),
            r ==> final(self).names() == Self::names_without(
                old(self).names(),
                old(self).slot_names(),
                entity.index(),
            ),
            r ==> final(self).slot_names() == old(self).slot_names().remove(entity.index()),
            r ==> final(self).tags() == Self::tags_without(
                old(self).tags(),
                if old(self).slot_tags().contains_key(entity.index()) {
                    old(self).slot_tags()[entity.index()]
                } else {
                    Seq::empty()
                },
                entity,
            ),
            r ==> final(self).slot_tags() == old(self).slot_tags().remove(entity.index()),
            r && (forall|t: Seq<char>|
                #[trigger] old(self).tags().contains_key(t) && old(self).tags()[t].contains(entity)
                    ==> old(self).slot_tags().contains_key(entity.index()) && old(self).slot_tags()[entity.index()].contains(t))
                ==> forall|t: Seq<char>| #[trigger] final(self).tags().contains_key(t)
                ==> !final(self).tags()[t].contains(entity),
    {
        if !self.allocator.is_alive(entity) {
            return false;
        }
        let idx = entity.index();
        let ghost sn = old(self).slot_names();
        let name = self.names_reverse.remove(&idx);
        match name {
            Some(n) => {
                self.names.remove(&n);
            },
            None => {},
        }
        proof {
            assert(self.slot_names() =~= sn.remove(idx));
        }
        let ghost after_names = *self;
        assert(after_names.tags() == old(self).tags());
        assert(after_names.slot_tags() == old(self).slot_tags());
        self.untag_despawned(entity);
        let ghost mid = *self;
        assert((forall|t: Seq<char>|
            #[trigger] old(self).tags().contains_key(t) && old(self).tags()[t].contains(entity)
                ==> old(self).slot_tags().contains_key(entity.index()) && old(self).slot_tags()[entity.index()].contains(t))
            ==> forall|t: Seq<char>| #[trigger] mid.tags().contains_key(t) ==> !mid.tags()[t].contains(entity));
        let _ = self.take_entity_row(entity);
        let ghost mid2 = *self;
        self.locations.set(idx as usize, None);
        self.parents.set(idx as usize, None);
        self.children.set(idx as usize, None);
        let ghost mid3 = *self;
        let freed = self.allocator.deallocate(entity);
        self.despawned_this_frame = self.despawned_this_frame.wrapping_add(1);
        proof {
            assert(freed);
            Self::lemma_hier_despawn(
                mid3.allocator,
                self.allocator,
                old(self).children@,
                self.children@,
                self.births@,
                self.clock@,
                entity,
            );
            Self::lemma_links_despawn(
                mid3.allocator,
                self.allocator,
                old(self).parents@,
                self.parents@,
                old(self).children@,
                self.children@,
                entity,
            );
            assert forall|a: int, r: int|
                0 <= a < self.archetypes@.len() && 0 <= r < self.archetypes@[a].entities@.len()
                    implies #[trigger] Self::row_ok(
                    self.allocator,
                    self.locations@,
                    self.archetypes@,
                    a,
                    r,
                ) by {
                assert(Self::row_ok(
                    mid2.allocator,
                    mid2.locations@,
                    mid2.archetypes@,
                    a,
                    r,
                ));
                let x = self.archetypes@[a].entities@[r];
                assert(x.index() != entity.index());
            }
            assert forall|i: int|
                0 <= i < self.locations@.len() && self.locations@[i].is_some() implies #[trigger] Self::loc_ok(
                self.allocator.generations(),
                self.locations@,
                self.archetypes@,
                i,
            ) by {
                assert(Self::loc_ok(
                    mid2.allocator.generations(),
                    mid2.locations@,
                    mid2.archetypes@,
                    i,
                ));
            }
            assert forall|i: int|
                0 <= i < self.locations@.len() implies ((#[trigger] self.locations@[i]).is_some()
                <==> self.allocator.slot_in_use(i)) by {
                if i != idx {
                    assert(mid2.locations@[i].is_some() <==> mid2.allocator.slot_in_use(i));
                }
            }
            assert(self.store_wf());
            assert forall|x: Entity| x != entity implies {
                &&& (#[trigger] self.contains(x)) == old(self).contains(x)
                &&& self.components(x) == old(self).components(x)
                &&& self.parent_of(x) == old(self).parent_of(x)
                &&& self.children_of(x) == old(self).children_of(x)
            } by {
                assert(mid.contains(x) == old(self).contains(x));
                assert(mid2.contains(x) == mid.contains(x));
                if self.contains(x) {
                    assert(x.index() != entity.index());
                }
            }
            assert(self.names() == Self::names_without(old(self).names(), sn, idx));
        }
        true
    }

    // ── Hierarchy ─────────────────────────────────────────────────────

    /// `path` goes from its first entity down children lists of live
    /// entities, one link at a time.
    pub open spec fn is_down_path(&self, path: Seq<Entity>) -> bool {
        &&& path.len() >= 1
        &&& forall|k: int|
            0 <= k < path.len() - 1 ==> #[trigger] self.kids_of(path[k]).contains(path[k + 1])
    }

    /// `x` is `root` itself or reached from it down children lists.
    pub open spec fn in_subtree(&self, root: Entity, x: Entity) -> bool {
        exists|path: Seq<Entity>|
            #[trigger] self.is_down_path(path) && path[0] == root && path.last() == x
    }

    /// The live entities of the subtree under `root`.
    pub open spec fn live_subtree(&self, root: Entity) -> Set<Entity> {
        Set::new(|x: Entity| self.contains(x) && self.in_subtree(root, x))
    }

    proof fn lemma_subtree_root(&self, root: Entity)
        ensures
            self.in_subtree(root, root),
    {
        let path = seq![root];
        assert(self.is_down_path(path));
    }

    proof fn lemma_subtree_step(&self, root: Entity, y: Entity, c: Entity)
        requires
            self.in_subtree(root, y),
            self.kids_of(y).contains(c),
        ensures
            self.in_subtree(root, c),
    {
        let path = choose|path: Seq<Entity>|
            #[trigger] self.is_down_path(path) && path[0] == root && path.last() == y;
        let p2 = path.push(c);
        assert forall|k: int| 0 <= k < p2.len() - 1 implies #[trigger] self.kids_of(p2[k]).contains(
            p2[k + 1],
        ) by {
            if k < path.len() - 1 {
                assert(self.kids_of(path[k]).contains(path[k + 1]));
            }
        }
        assert(self.is_down_path(p2));
    }

    /// A list that holds `path[0]` and the children of each of its members
    /// holds the whole path.
    proof fn lemma_path_closed(&self, path: Seq<Entity>, v: Seq<Entity>)
        requires
            self.is_down_path(path),
            v.contains(path[0]),
            forall|y: Entity, c: Entity| #[trigger]
                v.contains(y) && #[trigger] self.kids_of(y).contains(c) ==> v.contains(c),
        ensures
            v.contains(path.last()),
        decreases path.len(),
    {
        if path.len() > 1 {
            let p = path.drop_last();
            assert forall|k: int| 0 <= k < p.len() - 1 implies #[trigger] self.kids_of(p[k]).contains(
                p[k + 1],
            ) by {
                assert(self.kids_of(path[k]).contains(path[k + 1]));
            }
            self.lemma_path_closed(p, v);
            assert(self.kids_of(path[path.len() - 2]).contains(path[path.len() - 2 + 1]));
        }
    }

    /// The entities of the subtree under a live `root`, breadth first:
    /// `root`, then the children of each listed live entity in list order.
    fn subtree_list(&self, root: Entity) -> (v: Vec<Entity>)
        requires
            self.wf(),
            self.contains(root),
        ensures
            v@.len() >= 1,
            v@[0] == root,
            v@.no_duplicates(),
            forall|k: int|
                0 <= k < v@.len() ==> self.births@.contains_key(#[trigger] v@[k]) && self.in_subtree(
                    root,
                    v@[k],
                ),
            forall|x: Entity| #[trigger] self.in_subtree(root, x) ==> v@.contains(x),
    {
        let mut v: Vec<Entity> = Vec::new();
        v.push(root);
        let ghost b = self.births@;
        let ghost mut par: Seq<int> = seq![0int];
        proof {
            self.lemma_subtree_root(root);
        }
        let mut i: usize = 0;
        while i < v.len()
            invariant
                self.wf(),
                self.contains(root),
                b == self.births@,
                i <= v@.len(),
                v@.len() >= 1,
                v@[0] == root,
                v@.no_duplicates(),
                par.len() == v@.len(),
                forall|k: int|
                    0 <= k < v@.len() ==> b.contains_key(#[trigger] v@[k]) && b[root] <= b[v@[k]]
                        && self.in_subtree(root, v@[k]),
                forall|m: int|
                    1 <= m < v@.len() ==> 0 <= #[trigger] par[m] < i && par[m] < m && self.contains(
                        v@[par[m]],
                    ) && Self::kids(self.children@, v@[par[m]]).contains(v@[m]),
                forall|k: int, c: Entity|
                    0 <= k < i && #[trigger] self.kids_of(v@[k]).contains(c) ==> v@.contains(c),
            decreases b.dom().len() - i,
        {
            proof {
                assert forall|x: Entity| v@.contains(x) implies b.contains_key(x) by {
                    let k = v@.index_of(x);
                    assert(b.contains_key(v@[k]));
                }
                assert(v@.to_set().subset_of(b.dom()));
                vstd::set_lib::lemma_len_subset(v@.to_set(), b.dom());
                v@.unique_seq_to_set();
            }
            let cur = v[i];
            let ghost start = v@.len();
            proof {
                assert(b.contains_key(v@[i as int]));
            }
            if self.allocator.is_alive(cur) {
                let ci = cur.index() as usize;
                match &self.children[ci] {
                    Some(list) => {
                        let ghost ks = list@;
                        assert(ks == Self::kids(self.children@, cur));
                        let mut t: usize = 0;
                        while t < list.len()
                            invariant
                                self.wf(),
                                self.contains(root),
                                self.contains(cur),
                                cur == v@[i as int],
                                b == self.births@,
                                i < start,
                                start <= v@.len(),
                                ks == list@,
                                ks == Self::kids(self.children@, cur),
                                t <= ks.len(),
                                v@.len() == start + t,
                                forall|m: int| 0 <= m < t ==> #[trigger] v@[start + m] == ks[m],
                                v@[0] == root,
                                v@.no_duplicates(),
                                par.len() == v@.len(),
                                forall|k: int|
                                    0 <= k < v@.len() ==> b.contains_key(#[trigger] v@[k]) && b[root]
                                        <= b[v@[k]] && self.in_subtree(root, v@[k]),
                                forall|m: int|
                                    1 <= m < start ==> 0 <= #[trigger] par[m] < i && par[m] < m
                                        && self.contains(v@[par[m]]) && Self::kids(
                                        self.children@,
                                        v@[par[m]],
                                    ).contains(v@[m]),
                                forall|m: int| start <= m < v@.len() ==> #[trigger] par[m] == i,
                                forall|k: int, c: Entity|
                                    0 <= k < i && #[trigger] self.kids_of(v@[k]).contains(c)
                                        ==> v@.contains(c),
                            decreases ks.len() - t,
                        {
                            let c = list[t];
                            proof {
                                assert(self.kids_of(cur).contains(c)) by {
                                    assert(self.kids_of(cur) == ks);
                                    assert(ks[t as int] == c);
                                }
                                assert(Self::kids(self.children@, cur)[t as int] == c);
                                assert(b.contains_key(c) && b[cur] < b[c]);
                                self.lemma_subtree_step(root, cur, c);
                                assert(!v@.contains(c)) by {
                                    if v@.contains(c) {
                                        let m = v@.index_of(c);
                                        if m == 0 {
                                            assert(b[root] <= b[cur]);
                                        } else if m < start {
                                            let q = v@[par[m]];
                                            let l = Self::kids(self.children@, q).index_of(c);
                                            assert(Self::kids(self.children@, q)[l] == c);
                                            assert(q == cur);
                                            assert(v@[par[m]] == v@[i as int]);
                                        } else {
                                            assert(v@[start + (m - start)] == ks[m - start]);
                                            assert(ks.no_duplicates());
                                        }
                                    }
                                }
                            }
                            let ghost vold = v@;
                            v.push(c);
                            proof {
                                par = par.push(i as int);
                                assert forall|k: int, d: Entity|
                                    0 <= k < i && #[trigger] self.kids_of(v@[k]).contains(d)
                                        implies v@.contains(d) by {
                                    assert(vold[k] == v@[k]);
                                    assert(self.kids_of(vold[k]).contains(d));
                                    let j = vold.index_of(d);
                                    assert(v@[j] == d);
                                }
                            }
                            t = t + 1;
                        }
                        proof {
                            assert forall|c: Entity| #[trigger] self.kids_of(cur).contains(c)
                                implies v@.contains(c) by {
                                let j = ks.index_of(c);
                                assert(v@[start + j] == ks[j]);
                            }
                            assert forall|m: int| start <= m < v@.len() implies Self::kids(
                                self.children@,
                                v@[#[trigger] par[m]],
                            ).contains(v@[m]) by {
                                assert(v@[start + (m - start)] == ks[m - start]);
                            }
                        }
                    },
                    None => {
                        proof {
                            assert(self.kids_of(cur) =~= Seq::<Entity>::empty());
                        }
                    },
                }
            } else {
                proof {
                    assert(!self.contains(cur));
                    assert(self.kids_of(cur) =~= Seq::<Entity>::empty());
                }
            }
            proof {
                assert forall|k: int, c: Entity|
                    0 <= k < i + 1 && #[trigger] self.kids_of(v@[k]).contains(c) implies v@.contains(c) by {
                    if k == i {
                        assert(v@[k] == cur);
                    }
                }
            }
            i = i + 1;
        }
        proof {
            assert forall|x: Entity| #[trigger] self.in_subtree(root, x) implies v@.contains(x) by {
                let path = choose|path: Seq<Entity>|
                    #[trigger] self.is_down_path(path) && path[0] == root && path.last() == x;
                assert forall|y: Entity, c: Entity| #[trigger]
                    v@.contains(y) && #[trigger] self.kids_of(y).contains(c) implies v@.contains(c) by {
                    let k = v@.index_of(y);
                    assert(self.kids_of(v@[k]).contains(c));
                }
                self.lemma_path_closed(path, v@);
            }
        }
        v
    }

    /// Whether the entity is alive in this world.
    fn holds_entity(&self, entity: Entity) -> (r: bool)
        requires
            self.wf(),
        ensures
            r == self.contains(entity),
    {
        let idx = entity.index() as usize;
        if self.allocator.is_alive(entity) {
            proof {
                assert(idx < self.locations@.len());
            }
            self.locations[idx].is_some()
        } else {
            false
        }
    }

    /// The parent of `entity`, if it is alive and was spawned as a child.
    pub fn get_parent(&self, entity: Entity) -> (r: Option<Parent>)
        requires
            self.wf(),
        ensures
            r == match self.parent_of(entity) {
                Some(p) => Some(Parent(p)),
                None => None::<Parent>,
            },
    {
        if self.holds_entity(entity) {
            match self.parents[entity.index() as usize] {
                Some(p) => Some(Parent(p)),
                None => None,
            }
        } else {
            None
        }
    }

    /// The children list of `entity`, if it is alive and has one.
    pub fn get_children(&self, entity: Entity) -> (r: Option<Children>)
        requires
            self.wf(),
        ensures
            match r {
                Some(c) => self.children_of(entity) == Some(c.0@),
                None => self.children_of(entity) is None,
            },
    {
        if self.holds_entity(entity) {
            match &self.children[entity.index() as usize] {
                Some(v) => Some(Children(copy_vec(v))),
                None => None,
            }
        } else {
            None
        }
    }

    /// A live entity with a component of kind `kind` and no parent.
    pub open spec fn is_transform_root(&self, kind: TypeKey, x: Entity) -> bool {
        &&& self.contains(x)
        &&& self.components(x).contains_key(kind)
        &&& self.parent_of(x) is None
    }

    /// `order` lists each entity at most once: first the transform roots
    /// (entries without a parent position), then everything reached from
    /// them down children lists, each with the position of the entry whose
    /// children list holds it, which comes earlier.
    pub open spec fn is_propagation_order(&self, kind: TypeKey, order: Seq<(Entity, Option<usize>)>) -> bool {
        &&& forall|i: int, j: int| 0 <= i < j < order.len() ==> order[i].0 != order[j].0
        &&& forall|a: int, b: int| 0 <= a < b < order.len() && order[a].1 is Some ==> order[b].1 is Some
        &&& forall|k: int| 0 <= k < order.len() && order[k].1 is None ==> self.is_transform_root(kind, order[k].0)
        &&& forall|x: Entity| #[trigger] self.is_transform_root(kind, x) ==> exists|k: int|
            0 <= k < order.len() && order[k] == (x, None::<usize>)
        &&& forall|k: int|
            0 <= k < order.len() && order[k].1 is Some ==> {
                &&& order[k].1->0 < k
                &&& self.kids_of(order[order[k].1->0 as int].0).contains(order[k].0)
            }
        &&& forall|j: int, c: Entity|
            0 <= j < order.len() && #[trigger] self.kids_of(order[j].0).contains(c) ==> exists|k: int|
                0 <= k < order.len() && order[k] == (c, Some(j as usize))
    }

    /// The order in which world transforms are worked out: the transform
    /// roots, then breadth first down the children lists.
    pub fn propagation_order(&self, transform_kind: TypeKey) -> (r: Vec<(Entity, Option<usize>)>)
        requires
            self.wf(),
        ensures
            self.is_propagation_order(transform_kind, r@),
    {
        let candidates = self.entities_with(transform_kind);
        let ghost b = self.births@;
        let mut out: Vec<(Entity, Option<usize>)> = Vec::new();
        let mut t: usize = 0;
        while t < candidates.len()
            invariant
                self.wf(),
                b == self.births@,
                t <= candidates@.len(),
                candidates@.no_duplicates(),
                forall|x: Entity| #[trigger] candidates@.contains(x) <==> (self.contains(x)
                    && self.components(x).contains_key(transform_kind)),
                forall|i: int, j: int| 0 <= i < j < out@.len() ==> out@[i].0 != out@[j].0,
                forall|k: int| #![trigger out@[k]] 0 <= k < out@.len() ==> out@[k].1 is None && self.is_transform_root(transform_kind, out@[k].0),
                forall|k: int| 0 <= k < out@.len() ==> #[trigger] candidates@.take(t as int).contains(out@[k].0),
                forall|x: Entity| self.is_transform_root(transform_kind, x) && #[trigger] candidates@.take(t as int).contains(x)
                    ==> exists|k: int| 0 <= k < out@.len() && out@[k] == (x, None::<usize>),
            decreases candidates@.len() - t,
        {
            let x = candidates[t];
            let ghost before = out@;
            proof {
                assert(candidates@.contains(x));
                assert forall|y: Entity| #[trigger] candidates@.take(t + 1).contains(y) == (candidates@.take(t as int).contains(y) || y == x) by {
                    assert(candidates@.take(t + 1) =~= candidates@.take(t as int).push(x));
                    lemma_push_contains(candidates@.take(t as int), x, y);
                }
                assert(!candidates@.take(t as int).contains(x)) by {
                    if candidates@.take(t as int).contains(x) {
                        let j = candidates@.take(t as int).index_of(x);
                        assert(candidates@[j] == candidates@[t as int]);
                    }
                }
            }
            match self.get_parent(x) {
                None => {
                    out.push((x, None));
                    proof {
                        assert(out@[before.len() as int] == (x, None::<usize>));
                        assert forall|y: Entity| self.is_transform_root(transform_kind, y) && #[trigger] candidates@.take(t + 1).contains(y)
                            implies exists|k: int| 0 <= k < out@.len() && out@[k] == (y, None::<usize>) by {
                            if y != x {
                                assert(candidates@.take(t as int).contains(y));
                                let k = choose|k: int| 0 <= k < before.len() && before[k] == (y, None::<usize>);
                                assert(out@[k] == before[k]);
                            }
                        }
                        assert forall|k: int| 0 <= k < out@.len() implies #[trigger] candidates@.take(t + 1).contains(out@[k].0) by {
                            if k < before.len() {
                                assert(out@[k] == before[k]);
                            }
                        }
                        assert(self.is_transform_root(transform_kind, x));
                        assert forall|k: int| #![trigger out@[k]] 0 <= k < out@.len() implies out@[k].1 is None && self.is_transform_root(transform_kind, out@[k].0) by {
                            if k < before.len() {
                                assert(out@[k] == before[k]);
                            }
                        }
                        assert forall|i1: int, j1: int| 0 <= i1 < j1 < out@.len() implies out@[i1].0 != out@[j1].0 by {
                            if j1 == before.len() {
                                assert(candidates@.take(t as int).contains(before[i1].0));
                            }
                        }
                    }
                },
                Some(_) => {
                    proof {
                        assert forall|y: Entity| self.is_transform_root(transform_kind, y) && #[trigger] candidates@.take(t + 1).contains(y)
                            implies exists|k: int| 0 <= k < out@.len() && out@[k] == (y, None::<usize>) by {
                            if y != x {
                                assert(candidates@.take(t as int).contains(y));
                            }
                        }
                    }
                },
            }
            t = t + 1;
        }
        proof {
            assert(candidates@.take(t as int) =~= candidates@);
            assert forall|x: Entity| #[trigger] self.is_transform_root(transform_kind, x)
                implies exists|k: int| 0 <= k < out@.len() && out@[k] == (x, None::<usize>) by {
                assert(candidates@.contains(x));
                assert(candidates@.take(t as int).contains(x));
            }
        }
        let roots = out.len();
        let ghost mut par: Seq<int> = Seq::new(roots as nat, |k: int| 0int);
        let mut i: usize = 0;
        while i < out.len()
            invariant
                self.wf(),
                b == self.births@,
                roots <= out@.len(),
                i <= out@.len(),
                par.len() == out@.len(),
                forall|i1: int, j1: int| 0 <= i1 < j1 < out@.len() ==> out@[i1].0 != out@[j1].0,
                forall|k: int| #![trigger out@[k]] 0 <= k < roots ==> out@[k].1 is None && self.is_transform_root(transform_kind, out@[k].0),
                forall|k: int| roots <= k < out@.len() ==> out@[k].1 == Some(#[trigger] par[k] as usize)
                    && 0 <= par[k] < i && par[k] < k && self.contains(out@[par[k]].0)
                    && Self::kids(self.children@, out@[par[k]].0).contains(out@[k].0),
                forall|k: int| 0 <= k < out@.len() ==> b.contains_key(#[trigger] out@[k].0),
                forall|x: Entity| #[trigger] self.is_transform_root(transform_kind, x)
                    ==> exists|k: int| 0 <= k < out@.len() && out@[k] == (x, None::<usize>),
                forall|j: int, c: Entity|
                    0 <= j < i && #[trigger] self.kids_of(out@[j].0).contains(c) ==> exists|k: int|
                        0 <= k < out@.len() && out@[k] == (c, Some(j as usize)),
            decreases b.dom().len() - i,
        {
            proof {
                assert forall|x: Entity| out@.map_values(|p: (Entity, Option<usize>)| p.0).contains(x) implies b.contains_key(x) by {
                    let k = out@.map_values(|p: (Entity, Option<usize>)| p.0).index_of(x);
                    assert(b.contains_key(out@[k].0));
                }
                let ents = out@.map_values(|p: (Entity, Option<usize>)| p.0);
                assert(ents.no_duplicates()) by {
                    assert forall|i1: int, j1: int| 0 <= i1 < ents.len() && 0 <= j1 < ents.len() && i1 != j1 implies ents[i1] != ents[j1] by {
                        if i1 < j1 {
                            assert(out@[i1].0 != out@[j1].0);
                        } else {
                            assert(out@[j1].0 != out@[i1].0);
                        }
                    }
                }
                assert(ents.to_set().subset_of(b.dom()));
                vstd::set_lib::lemma_len_subset(ents.to_set(), b.dom());
                ents.unique_seq_to_set();
            }
            let cur = out[i].0;
            let start = out.len();
            if self.holds_entity(cur) {
                match &self.children[cur.index() as usize] {
                    Some(list) => {
                        let ghost ks = list@;
                        assert(ks == Self::kids(self.children@, cur));
                        let mut t: usize = 0;
                        while t < list.len()
                            invariant
                                self.wf(),
                                b == self.births@,
                                self.contains(cur),
                                cur == out@[i as int].0,
                                roots <= start,
                                i < start,
                                start <= out@.len(),
                                ks == list@,
                                ks == Self::kids(self.children@, cur),
                                t <= ks.len(),
                                out@.len() == start + t,
                                par.len() == out@.len(),
                                forall|m: int| 0 <= m < t ==> #[trigger] out@[start + m] == (ks[m], Some(i)),
                                forall|i1: int, j1: int| 0 <= i1 < j1 < out@.len() ==> out@[i1].0 != out@[j1].0,
                                forall|k: int| #![trigger out@[k]] 0 <= k < roots ==> out@[k].1 is None && self.is_transform_root(transform_kind, out@[k].0),
                                forall|k: int| roots <= k < start ==> out@[k].1 == Some(#[trigger] par[k] as usize)
                                    && 0 <= par[k] < i && par[k] < k && self.contains(out@[par[k]].0)
                                    && Self::kids(self.children@, out@[par[k]].0).contains(out@[k].0),
                                forall|k: int| start <= k < out@.len() ==> #[trigger] par[k] == i,
                                forall|k: int| 0 <= k < out@.len() ==> b.contains_key(#[trigger] out@[k].0),
                                forall|x: Entity| #[trigger] self.is_transform_root(transform_kind, x)
                                    ==> exists|k: int| 0 <= k < out@.len() && out@[k] == (x, None::<usize>),
                                forall|j: int, c: Entity|
                                    0 <= j < i && #[trigger] self.kids_of(out@[j].0).contains(c) ==> exists|k: int|
                                        0 <= k < out@.len() && out@[k] == (c, Some(j as usize)),
                            decreases ks.len() - t,
                        {
                            let c = list[t];
                            let ghost before = out@;
                            proof {
                                assert(ks[t as int] == c);
                                assert(Self::kids(self.children@, cur)[t as int] == c);
                                assert(b.contains_key(c));
                                assert forall|m: int| 0 <= m < before.len() implies before[m].0 != c by {
                                    if m < roots {
                                        if self.contains(c) {
                                            assert(self.parents@[c.index() as int] == Some(cur));
                                            assert(self.parent_of(c) == Some(cur));
                                        }
                                    } else if m < start {
                                        let q = out@[par[m]].0;
                                        if before[m].0 == c {
                                            let l = Self::kids(self.children@, q).index_of(c);
                                            assert(Self::kids(self.children@, q)[l] == c);
                                            assert(q == cur);
                                            assert(out@[par[m]].0 == out@[i as int].0);
                                        }
                                    } else {
                                        assert(before[start + (m - start)] == (ks[m - start], Some(i)));
                                        assert(ks.no_duplicates());
                                    }
                                }
                            }
                            out.push((c, Some(i)));
                            proof {
                                par = par.push(i as int);
                                assert forall|j: int, d: Entity|
                                    0 <= j < i && #[trigger] self.kids_of(out@[j].0).contains(d) implies exists|k: int|
                                        0 <= k < out@.len() && out@[k] == (d, Some(j as usize)) by {
                                    assert(out@[j] == before[j]);
                                    assert(self.kids_of(before[j].0).contains(d));
                                    let k = choose|k: int| 0 <= k < before.len() && before[k] == (d, Some(j as usize));
                                    assert(out@[k] == before[k]);
                                }
                                assert forall|x: Entity| #[trigger] self.is_transform_root(transform_kind, x)
                                    implies exists|k: int| 0 <= k < out@.len() && out@[k] == (x, None::<usize>) by {
                                    let k = choose|k: int| 0 <= k < before.len() && before[k] == (x, None::<usize>);
                                    assert(out@[k] == before[k]);
                                }
                            }
                            t = t + 1;
                        }
                        proof {
                            assert forall|d: Entity| #[trigger] self.kids_of(cur).contains(d) implies exists|k: int|
                                0 <= k < out@.len() && out@[k] == (d, Some(i)) by {
                                let j = ks.index_of(d);
                                assert(out@[start + j] == (ks[j], Some(i)));
                            }
                            assert forall|k: int| roots <= k < out@.len() implies out@[k].1 == Some(#[trigger] par[k] as usize)
                                && 0 <= par[k] < i + 1 && par[k] < k && self.contains(out@[par[k]].0)
                                && Self::kids(self.children@, out@[par[k]].0).contains(out@[k].0) by {
                                if k >= start {
                                    assert(out@[start + (k - start)] == (ks[k - start], Some(i)));
                                }
                            }
                        }
                    },
                    None => {
                        proof {
                            assert(self.kids_of(cur) =~= Seq::<Entity>::empty());
                        }
                    },
                }
            } else {
                proof {
                    assert(self.kids_of(cur) =~= Seq::<Entity>::empty());
                }
            }
            proof {
                assert forall|j: int, c: Entity|
                    0 <= j < i + 1 && #[trigger] self.kids_of(out@[j].0).contains(c) implies exists|k: int|
                        0 <= k < out@.len() && out@[k] == (c, Some(j as usize)) by {
                    if j == i {
                        assert(out@[j].0 == cur);
                    }
                }
            }
            i = i + 1;
        }
        proof {
            assert forall|k: int| 0 <= k < out@.len() && out@[k].1 is None implies self.is_transform_root(transform_kind, out@[k].0) by {
                if k >= roots {
                    assert(out@[k].1 == Some(par[k] as usize));
                }
            }
            assert forall|a: int, c: int| 0 <= a < c < out@.len() && out@[a].1 is Some implies out@[c].1 is Some by {
                if a < roots {
                    assert(out@[a].1 is None);
                }
                assert(out@[c].1 == Some(par[c] as usize));
            }
            assert forall|k: int| 0 <= k < out@.len() && out@[k].1 is Some implies {
                &&& out@[k].1->0 < k
                &&& self.kids_of(out@[out@[k].1->0 as int].0).contains(out@[k].0)
            } by {
                if k < roots {
                    assert(out@[k].1 is None);
                }
                assert(out@[k].1 == Some(par[k] as usize));
            }
        }
        out
    }

    /// Despawn an entity and its whole subtree, after taking it out of its
    /// parent's children list. Returns `false`, changing nothing, for a
    /// handle that is not alive.
    pub fn despawn_recursive(&mut self, entity: Entity) -> (r: bool)
        requires
            old(self).wf(),
            old(self).handle_alive(entity) ==> old(self).contains(entity),
            forall|x: Entity| old(self).contains(x) ==> x.generation() < u32::MAX,
        ensures
            final(self).spawned_count() == old(self).spawned_count(),
            final(self).slot_count() == old(self).slot_count(),
            final(self).handed_out() == old(self).handed_out(),
            r ==> final(self).despawned_count() == count_after(
                old(self).despawned_count(),
                old(self).live_subtree(entity).len() as int,
            ),
            final(self).wf(),
            r == old(self).contains(entity),
            !r ==> *final(self) == *old(self),
            r ==> forall|x: Entity|
                #[trigger] final(self).contains(x) == (old(self).contains(x) && !old(
                    self,
                ).in_subtree(entity, x)),
            r ==> forall|x: Entity|
                #[trigger] final(self).contains(x) ==> {
                    &&& final(self).components(x) == old(self).components(x)
                    &&& final(self).parent_of(x) == old(self).parent_of(x)
                    &&& final(self).children_of(x) == if old(self).parent_of(entity) == Some(x) {
                        match old(self).children_of(x) {
                            Some(l) => Some(l.filter(other_than(entity))),
                            None => None,
                        }
                    } else {
                        old(self).children_of(x)
                    }
                },
            r ==> final(self).live_count() == old(self).live_count() - old(
                self,
            ).live_subtree(entity).len(),
            r ==> final(self).resources() == old(self).resources(),
            r ==> final(self).archetype_keys() == old(self).archetype_keys(),
            r ==> final(self).slot_names() == old(self).slot_names().remove_keys(
                Self::slots_of(old(self).live_subtree(entity)),
            ),
            r ==> final(self).names() == old(self).names().remove_keys(
                Self::names_freed(old(self).slot_names(), old(self).live_subtree(entity)),
            ),
            r ==> final(self).slot_tags() == old(self).slot_tags().remove_keys(
                Self::slots_of(old(self).live_subtree(entity)),
            ),
            r ==> final(self).tags() == Self::tags_after_despawns(
                old(self).tags(),
                old(self).slot_tags(),
                old(self).live_subtree(entity),
            ),
    {
        if !self.allocator.is_alive(entity) {
            return false;
        }
        let list = self.subtree_list(entity);
        let ghost w0 = *self;
        let idx = entity.index() as usize;
        match self.parents[idx] {
            Some(p) => {
                proof {
                    assert(self.allocator.slot_in_use(idx as int));
                    assert(self.births@.contains_key(p));
                }
                if self.allocator.is_alive(p) {
                    let pi = p.index() as usize;
                    proof {
                        assert(self.contains(p));
                    }
                    match &self.children[pi] {
                        Some(v) => {
                            let nv = without_entity(v, entity);
                            self.children.set(pi, Some(nv));
                            proof {
                                Self::lemma_hier_unlink(
                                    w0.allocator,
                                    w0.children@,
                                    self.children@,
                                    w0.births@,
                                    w0.clock@,
                                    p,
                                    entity,
                                );
                                Self::lemma_links_unlink(
                                    w0.allocator,
                                    w0.parents@,
                                    w0.children@,
                                    self.children@,
                                    p,
                                    entity,
                                );
                            }
                        },
                        None => {},
                    }
                }
            },
            None => {},
        }
        let ghost w1 = *self;
        proof {
            assert(self.wf());
            assert forall|x: Entity| #[trigger] w1.contains(x) implies {
                &&& w1.components(x) == w0.components(x)
                &&& w1.parent_of(x) == w0.parent_of(x)
                &&& w1.children_of(x) == if w0.parent_of(entity) == Some(x) {
                    match w0.children_of(x) {
                        Some(l) => Some(l.filter(other_than(entity))),
                        None => None,
                    }
                } else {
                    w0.children_of(x)
                }
            } by {
                if w0.parent_of(entity) != Some(x) {
                    x.lemma_eq(w0.parents@[idx as int].unwrap());
                    if w0.parents@[idx as int] is Some && x.index() == w0.parents@[idx as int].unwrap().index() {
                        assert(w0.allocator.slot_in_use(x.index() as int));
                    }
                }
            }
        }
        proof {
            assert forall|x: Entity| w1.contains(x) implies x.generation() < u32::MAX by {
                assert(old(self).contains(x));
            }
        }
        let ghost mut removed: Set<Entity> = Set::empty();
        proof {
            lemma_count_step(w1.despawned_count(), 0);
            let t0 = w1.tags();
            assert forall|t: Seq<char>| #[trigger] Self::tags_after_despawns(t0, w1.slot_tags(), removed).contains_key(t)
                == t0.contains_key(t) by {
                assert(Self::tagged_in(w1.slot_tags(), removed, t) =~= Set::<Entity>::empty());
            }
            assert forall|t: Seq<char>| t0.contains_key(t) implies #[trigger] Self::tags_after_despawns(t0, w1.slot_tags(), removed)[t]
                == t0[t] by {
                assert(Self::tagged_in(w1.slot_tags(), removed, t) =~= Set::<Entity>::empty());
                assert(t0[t].difference(Set::<Entity>::empty()) =~= t0[t]);
            }
            assert(Self::tags_after_despawns(t0, w1.slot_tags(), removed) =~= t0);
            assert(Self::slots_of(removed) =~= Set::<u32>::empty());
            assert(Self::names_freed(w1.slot_names(), removed) =~= Set::<Seq<char>>::empty());
            assert(w1.slot_names().remove_keys(Set::<u32>::empty()) =~= w1.slot_names());
            assert(w1.slot_tags().remove_keys(Set::<u32>::empty()) =~= w1.slot_tags());
            assert(w1.names().remove_keys(Set::<Seq<char>>::empty()) =~= w1.names());
        }
        let mut k: usize = 0;
        while k < list.len()
            invariant
                self.wf(),
                self.births == w0.births,
                k <= list@.len(),
                list@.no_duplicates(),
                forall|j: int| 0 <= j < list@.len() ==> w0.births@.contains_key(#[trigger] list@[j]),
                forall|x: Entity| w1.contains(x) ==> x.generation() < u32::MAX,
                forall|x: Entity|
                    #[trigger] self.contains(x) == (w1.contains(x) && !list@.take(k as int).contains(
                        x,
                    )),
                forall|x: Entity|
                    #[trigger] self.contains(x) ==> {
                        &&& self.components(x) == w1.components(x)
                        &&& self.parent_of(x) == w1.parent_of(x)
                        &&& self.children_of(x) == w1.children_of(x)
                    },
                removed.finite(),
                forall|x: Entity|
                    #[trigger] removed.contains(x) == (w1.contains(x) && list@.take(
                        k as int,
                    ).contains(x)),
                self.live_count() == w1.live_count() - removed.len(),
                self.resources() == w1.resources(),
                self.archetype_keys() == w1.archetype_keys(),
                self.slot_names() == w1.slot_names().remove_keys(Self::slots_of(removed)),
                self.names() == w1.names().remove_keys(Self::names_freed(w1.slot_names(), removed)),
                self.slot_tags() == w1.slot_tags().remove_keys(Self::slots_of(removed)),
                self.tags() == Self::tags_after_despawns(w1.tags(), w1.slot_tags(), removed),
                self.spawned_count() == w1.spawned_count(),
                self.slot_count() == w1.slot_count(),
                self.despawned_count() == count_after(w1.despawned_count(), removed.len() as int),
            decreases list@.len() - k,
        {
            let y = list[k];
            let ghost before = *self;
            proof {
                assert(w0.births@.contains_key(list@[k as int]));
                assert(self.births@.contains_key(y));
            }
            let ok = self.despawn_inner(y);
            proof {
                assert(list@.take(k + 1) =~= list@.take(k as int).push(y));
                assert(!list@.take(k as int).contains(y)) by {
                    if list@.take(k as int).contains(y) {
                        let j = list@.take(k as int).index_of(y);
                        assert(list@[j] == list@[k as int]);
                    }
                }
                if ok {
                    let s0 = removed;
                    assert(!s0.contains(y));
                    assert(w1.contains(y));
                    assert(!Self::slots_of(s0).contains(y.index())) by {
                        if Self::slots_of(s0).contains(y.index()) {
                            let x = choose|x: Entity| #[trigger] s0.contains(x) && x.index() == y.index();
                            assert(w1.contains(x));
                            x.lemma_eq(y);
                        }
                    }
                    assert(Self::slots_of(s0.insert(y)) =~= Self::slots_of(s0).insert(y.index())) by {
                        assert forall|i: u32| Self::slots_of(s0.insert(y)).contains(i) implies Self::slots_of(s0).insert(y.index()).contains(i) by {
                            let x = choose|x: Entity| #[trigger] s0.insert(y).contains(x) && x.index() == i;
                            if x != y {
                                assert(s0.contains(x));
                            }
                        }
                        assert forall|i: u32| Self::slots_of(s0).insert(y.index()).contains(i) implies Self::slots_of(s0.insert(y)).contains(i) by {
                            if i == y.index() {
                                assert(s0.insert(y).contains(y));
                            } else {
                                let x = choose|x: Entity| #[trigger] s0.contains(x) && x.index() == i;
                                assert(s0.insert(y).contains(x));
                            }
                        }
                    }
                    assert(before.slot_names().contains_key(y.index()) == w1.slot_names().contains_key(y.index()));
                    assert(self.slot_names() =~= w1.slot_names().remove_keys(Self::slots_of(s0.insert(y))));
                    assert(self.slot_tags() =~= w1.slot_tags().remove_keys(Self::slots_of(s0.insert(y))));
                    let nf = Self::names_freed(w1.slot_names(), s0);
                    let nf2 = Self::names_freed(w1.slot_names(), s0.insert(y));
                    if w1.slot_names().contains_key(y.index()) {
                        assert(nf2 =~= nf.insert(w1.slot_names()[y.index()])) by {
                            assert forall|n: Seq<char>| nf2.contains(n) implies nf.insert(w1.slot_names()[y.index()]).contains(n) by {
                                let x = choose|x: Entity| #[trigger] s0.insert(y).contains(x) && w1.slot_names().contains_key(x.index()) && w1.slot_names()[x.index()] == n;
                                if x != y {
                                    assert(s0.contains(x));
                                }
                            }
                            assert forall|n: Seq<char>| nf.insert(w1.slot_names()[y.index()]).contains(n) implies nf2.contains(n) by {
                                if n == w1.slot_names()[y.index()] {
                                    assert(s0.insert(y).contains(y));
                                } else {
                                    let x = choose|x: Entity| #[trigger] s0.contains(x) && w1.slot_names().contains_key(x.index()) && w1.slot_names()[x.index()] == n;
                                    assert(s0.insert(y).contains(x));
                                }
                            }
                        }
                        assert(before.slot_names()[y.index()] == w1.slot_names()[y.index()]);
                        assert(self.names() =~= w1.names().remove_keys(nf2));
                    } else {
                        assert(nf2 =~= nf) by {
                            assert forall|n: Seq<char>| nf2.contains(n) implies nf.contains(n) by {
                                let x = choose|x: Entity| #[trigger] s0.insert(y).contains(x) && w1.slot_names().contains_key(x.index()) && w1.slot_names()[x.index()] == n;
                                if x != y {
                                    assert(s0.contains(x));
                                }
                            }
                            assert forall|n: Seq<char>| nf.contains(n) implies nf2.contains(n) by {
                                let x = choose|x: Entity| #[trigger] s0.contains(x) && w1.slot_names().contains_key(x.index()) && w1.slot_names()[x.index()] == n;
                                assert(s0.insert(y).contains(x));
                            }
                        }
                        assert(self.names() =~= w1.names().remove_keys(nf2));
                    }
                    let lst = if before.slot_tags().contains_key(y.index()) {
                        before.slot_tags()[y.index()]
                    } else {
                        Seq::<Seq<char>>::empty()
                    };
                    let lst1 = if w1.slot_tags().contains_key(y.index()) {
                        w1.slot_tags()[y.index()]
                    } else {
                        Seq::<Seq<char>>::empty()
                    };
                    assert(lst == lst1);
                    Self::lemma_tags_without(before.tags(), lst, y);
                    Self::lemma_tags_after_step(w1.tags(), w1.slot_tags(), s0, y);
                    lemma_count_step(w1.despawned_count(), removed.len() as int);
                    removed = removed.insert(y);
                }
                assert forall|x: Entity|
                    #[trigger] self.contains(x) == (w1.contains(x) && !list@.take(k + 1).contains(
                        x,
                    )) by {
                    lemma_push_contains(list@.take(k as int), y, x);
                    if x != y {
                        assert(before.contains(x) == self.contains(x));
                    }
                }
                assert forall|x: Entity| #[trigger] removed.contains(x) == (w1.contains(x) && list@.take(
                    k + 1,
                ).contains(x)) by {
                    lemma_push_contains(list@.take(k as int), y, x);
                }
                assert forall|x: Entity| #[trigger] self.contains(x) implies {
                    &&& self.components(x) == w1.components(x)
                    &&& self.parent_of(x) == w1.parent_of(x)
                    &&& self.children_of(x) == w1.children_of(x)
                } by {
                    if ok {
                        assert(x != y);
                    }
                    assert(before.contains(x));
                }
            }
            k = k + 1;
        }
        proof {
            assert(list@.take(k as int) =~= list@);
            assert forall|x: Entity| #[trigger] w0.in_subtree(entity, x) implies list@.contains(x) by {}
            assert forall|x: Entity| list@.contains(x) implies #[trigger] w0.in_subtree(entity, x) by {
                let j = list@.index_of(x);
                assert(w0.in_subtree(entity, list@[j]));
            }
            assert(removed =~= w0.live_subtree(entity));
            assert(w1.slot_names() == w0.slot_names());
            assert(w1.slot_tags() == w0.slot_tags());
            assert(w1.names() == w0.names());
            assert(w1.tags() == w0.tags());
        }
        true
    }

    // ── Diagnostics ───────────────────────────────────────────────────

    /// The entities of each archetype, in row order.
    pub closed spec fn archetype_rows(&self) -> Seq<Seq<Entity>> {
        self.archetypes@.map_values(|a: Archetype<V>| a.entities@)
    }

    /// The archetype rows list every live entity exactly once, and the kinds
    /// of an entity's components are the key of the archetype that lists it.
    pub proof fn lemma_archetype_rows(&self)
        requires
            self.wf(),
        ensures
            self.archetype_rows().len() == self.archetype_keys().len(),
            forall|a: int, k: int|
                0 <= a < self.archetype_rows().len() && 0 <= k < self.archetype_rows()[a].len() ==> {
                    &&& self.contains(#[trigger] self.archetype_rows()[a][k])
                    &&& self.components(self.archetype_rows()[a][k]).dom()
                        == self.archetype_keys()[a].to_set()
                },
            forall|x: Entity|
                #[trigger] self.contains(x) ==> exists|a: int, k: int|
                    0 <= a < self.archetype_rows().len() && 0 <= k < self.archetype_rows()[a].len()
                        && #[trigger] self.archetype_rows()[a][k] == x,
            forall|a: int, k: int, b: int, j: int|
                0 <= a < self.archetype_rows().len() && 0 <= k < self.archetype_rows()[a].len() && 0
                    <= b < self.archetype_rows().len() && 0 <= j < self.archetype_rows()[b].len()
                    && #[trigger] self.archetype_rows()[a][k] == #[trigger] self.archetype_rows()[b][j]
                    ==> a == b && k == j,
    {
        let rows = self.archetype_rows();
        assert forall|a: int, k: int|
            0 <= a < rows.len() && 0 <= k < rows[a].len() implies {
                &&& self.contains(#[trigger] rows[a][k])
                &&& self.components(rows[a][k]).dom() == self.archetype_keys()[a].to_set()
            } by {
            assert(Self::row_ok(self.allocator, self.locations@, self.archetypes@, a, k));
            assert(self.archetypes@[a].wf());
            assert(self.components(rows[a][k]).dom() =~= self.archetype_keys()[a].to_set());
        }
        assert forall|x: Entity| #[trigger] self.contains(x) implies exists|a: int, k: int|
            0 <= a < rows.len() && 0 <= k < rows[a].len() && #[trigger] rows[a][k] == x by {
            let i = x.index() as int;
            assert(self.allocator.slot_in_use(i));
            assert(self.locations@[i].is_some());
            assert(Self::loc_ok(self.allocator.generations(), self.locations@, self.archetypes@, i));
            let l = self.locations@[i].unwrap();
            let y = rows[l.archetype as int][l.row as int];
            x.lemma_eq(y);
        }
        assert forall|a: int, k: int, b: int, j: int|
            0 <= a < rows.len() && 0 <= k < rows[a].len() && 0 <= b < rows.len() && 0 <= j
                < rows[b].len() && #[trigger] rows[a][k] == #[trigger] rows[b][j] implies a == b && k
                == j by {
            assert(Self::row_ok(self.allocator, self.locations@, self.archetypes@, a, k));
            assert(Self::row_ok(self.allocator, self.locations@, self.archetypes@, b, j));
        }
    }

    /// In diagnostics, archetype `a` comes before `b`: more entities first,
    /// then the smaller key (the sorted kind list, compared
    /// lexicographically).
    pub open spec fn diag_before(&self, a: int, b: int) -> bool {
        let n = self.archetype_rows()[a].len();
        let m = self.archetype_rows()[b].len();
        n > m || (n == m && key_lt(self.archetype_keys()[a], self.archetype_keys()[b]))
    }

    /// `diag_before` is a strict total order on the archetypes.
    proof fn lemma_diag_order(&self, x: int, y: int, z: int)
        requires
            self.wf(),
            0 <= x < self.archetypes@.len(),
            0 <= y < self.archetypes@.len(),
            0 <= z < self.archetypes@.len(),
        ensures
            x != y ==> self.diag_before(x, y) || self.diag_before(y, x),
            !(self.diag_before(x, y) && self.diag_before(y, x)),
            !self.diag_before(x, x),
            self.diag_before(x, y) && self.diag_before(y, z) ==> self.diag_before(x, z),
    {
        let kx = self.archetype_keys()[x];
        let ky = self.archetype_keys()[y];
        let kz = self.archetype_keys()[z];
        assert(kx == self.archetypes@[x].key@);
        assert(ky == self.archetypes@[y].key@);
        assert(kz == self.archetypes@[z].key@);
        lemma_key_lt_total(kx, ky);
        lemma_key_lt_total(ky, kz);
        lemma_key_lt_total(kx, kz);
        if key_lt(kx, ky) && key_lt(ky, kz) {
            lemma_key_lt_trans(kx, ky, kz);
        }
    }

    /// `o` lists every archetype once, in diagnostics order.
    pub open spec fn is_diag_order(&self, o: Seq<usize>) -> bool {
        &&& o.no_duplicates()
        &&& forall|i: usize| #[trigger] o.contains(i) <==> i < self.archetype_rows().len()
        &&& forall|p: int, q: int|
            0 <= p < q < o.len() ==> self.diag_before(o[p] as int, o[q] as int)
    }

    /// The archetypes in diagnostics order.
    pub open spec fn diag_order(&self) -> Seq<usize> {
        choose|o: Seq<usize>| self.is_diag_order(o)
    }

    proof fn lemma_diag_unique(&self, a: Seq<usize>, b: Seq<usize>)
        requires
            self.wf(),
            forall|i: int| 0 <= i < a.len() ==> (#[trigger] a[i]) < self.archetypes@.len(),
            a.no_duplicates(),
            b.no_duplicates(),
            forall|x: usize| #![trigger a.contains(x)] #![trigger b.contains(x)] a.contains(x) <==> b.contains(x),
            forall|p: int, q: int|
                0 <= p < q < a.len() ==> self.diag_before(a[p] as int, a[q] as int),
            forall|p: int, q: int|
                0 <= p < q < b.len() ==> self.diag_before(b[p] as int, b[q] as int),
        ensures
            a == b,
        decreases a.len(),
    {
        if a.len() == 0 {
            if b.len() > 0 {
                assert(b.contains(b[0]));
            }
            assert(a =~= b);
        } else {
            assert(a.contains(a[0]));
            assert(b.contains(b[0]));
            if a[0] != b[0] {
                let j = b.index_of(a[0]);
                let i = a.index_of(b[0]);
                assert(b[j] == a[0] && a[i] == b[0]);
                assert(self.diag_before(b[0] as int, b[j] as int));
                assert(self.diag_before(a[0] as int, a[i] as int));
                self.lemma_diag_order(a[0] as int, b[0] as int, b[0] as int);
            }
            let a2 = a.drop_first();
            let b2 = b.drop_first();
            assert forall|x: usize| #![trigger a2.contains(x)] #![trigger b2.contains(x)] a2.contains(x) <==> b2.contains(x) by {
                if a2.contains(x) {
                    let i = a2.index_of(x);
                    assert(a[i + 1] == x);
                    assert(a.contains(x));
                    let j = b.index_of(x);
                    assert(b[j] == x);
                    assert(j != 0);
                    assert(b2[j - 1] == x);
                }
                if b2.contains(x) {
                    let i = b2.index_of(x);
                    assert(b[i + 1] == x);
                    assert(b.contains(x));
                    let j = a.index_of(x);
                    assert(a[j] == x);
                    assert(j != 0);
                    assert(a2[j - 1] == x);
                }
            }
            assert forall|i: int| 0 <= i < a2.len() implies (#[trigger] a2[i]) < self.archetypes@.len() by {
                assert(a2[i] == a[i + 1]);
            }
            self.lemma_diag_unique(a2, b2);
            assert(a =~= seq![a[0]] + a2);
            assert(b =~= seq![b[0]] + b2);
        }
    }

    /// The archetypes in diagnostics order.
    fn diag_sorted(&self) -> (r: Vec<usize>)
        requires
            self.wf(),
        ensures
            self.is_diag_order(r@),
            r@ == self.diag_order(),
    {
        let n = self.archetypes.len();
        let mut r: Vec<usize> = Vec::new();
        let mut i: usize = 0;
        proof {
            assert forall|x: int| 0 <= x < n implies #[trigger] self.archetype_rows()[x]
                == self.archetypes@[x].entities@ by {}
            assert forall|x: int| 0 <= x < n implies #[trigger] self.archetype_keys()[x]
                == self.archetypes@[x].key@ by {}
        }
        while i < n
            invariant
                i <= n == self.archetypes@.len(),
                self.archetype_rows().len() == n,
                forall|x: int| 0 <= x < n ==> #[trigger] self.archetype_rows()[x] == self.archetypes@[x].entities@,
                forall|x: int| 0 <= x < n ==> #[trigger] self.archetype_keys()[x] == self.archetypes@[x].key@,
                self.wf(),
                r@.no_duplicates(),
                forall|x: usize| #[trigger] r@.contains(x) <==> x < i,
                forall|p: int, q: int|
                    0 <= p < q < r@.len() ==> self.diag_before(r@[p] as int, r@[q] as int),
            decreases n - i,
        {
            proof {
                assert forall|j: int| 0 <= j < r@.len() implies #[trigger] r@[j] < i by {
                    assert(r@.contains(r@[j]));
                }
            }
            let mut p: usize = 0;
            while p < r.len() && !(self.archetypes[i].entities.len() > self.archetypes[r[p]].entities.len()
                || (self.archetypes[i].entities.len() == self.archetypes[r[p]].entities.len() && key_less(
                &self.archetypes[i].key,
                &self.archetypes[r[p]].key,
            )))
                invariant
                    i < n == self.archetypes@.len(),
                    self.archetype_rows().len() == n,
                    forall|x: int| 0 <= x < n ==> #[trigger] self.archetype_rows()[x] == self.archetypes@[x].entities@,
                    forall|x: int| 0 <= x < n ==> #[trigger] self.archetype_keys()[x] == self.archetypes@[x].key@,
                    p <= r@.len(),
                    forall|j: int| 0 <= j < r@.len() ==> #[trigger] r@[j] < i,
                    forall|j: int| 0 <= j < p ==> !self.diag_before(i as int, #[trigger] r@[j] as int),
                decreases r@.len() - p,
            {
                p = p + 1;
            }
            let ghost old_r = r@;
            r.insert(p, i);
            proof {
                assert(!old_r.contains(i));
                assert forall|a: int, b: int| 0 <= a < b < r@.len() implies r@[a] != r@[b] by {
                    if a == p as int {
                        assert(old_r.contains(r@[b]));
                    } else if b == p as int {
                        assert(old_r.contains(r@[a]));
                    } else {
                        let oa = if a < p { a } else { a - 1 };
                        let ob = if b < p { b } else { b - 1 };
                        assert(r@[a] == old_r[oa]);
                        assert(r@[b] == old_r[ob]);
                    }
                }
                assert forall|x: usize| #[trigger] r@.contains(x) <==> x < i + 1 by {
                    if r@.contains(x) {
                        let j = r@.index_of(x);
                        if j < p {
                            assert(old_r[j] == r@[j]);
                            assert(old_r.contains(x));
                        } else if j > p {
                            assert(old_r[j - 1] == r@[j]);
                            assert(old_r.contains(x));
                        }
                    }
                    if x < i {
                        assert(old_r.contains(x));
                        let j = old_r.index_of(x);
                        if j < p {
                            assert(r@[j] == old_r[j]);
                        } else {
                            assert(r@[j + 1] == old_r[j]);
                        }
                    }
                    if x == i {
                        assert(r@[p as int] == i);
                    }
                }
                assert forall|a: int, b: int| 0 <= a < b < r@.len() implies self.diag_before(
                    r@[a] as int,
                    r@[b] as int,
                ) by {
                    if a < p && b < p {
                        assert(r@[a] == old_r[a] && r@[b] == old_r[b]);
                    } else if a < p && b == p {
                        assert(r@[a] == old_r[a]);
                        assert(old_r[a] != i);
                        assert(!self.diag_before(i as int, old_r[a] as int));
                        self.lemma_diag_order(i as int, old_r[a] as int, i as int);
                        assert(self.archetype_rows()[i as int] == self.archetypes@[i as int].entities@);
                        assert(self.archetype_rows()[old_r[a] as int] == self.archetypes@[old_r[a] as int].entities@);
                    } else if a < p && b > p {
                        assert(r@[a] == old_r[a] && r@[b] == old_r[b - 1]);
                    } else if a == p {
                        assert(r@[b] == old_r[b - 1]);
                        assert(self.archetype_rows()[i as int] == self.archetypes@[i as int].entities@);
                        assert(self.archetype_rows()[old_r[p as int] as int] == self.archetypes@[old_r[p as int] as int].entities@);
                        assert(self.diag_before(i as int, old_r[p as int] as int));
                        if b - 1 > p {
                            assert(self.diag_before(old_r[p as int] as int, old_r[b - 1] as int));
                            self.lemma_diag_order(i as int, old_r[p as int] as int, old_r[b - 1] as int);
                        }
                    } else {
                        assert(r@[a] == old_r[a - 1] && r@[b] == old_r[b - 1]);
                    }
                }
            }
            i = i + 1;
        }
        proof {
            let o = self.diag_order();
            assert(self.is_diag_order(r@));
            assert(self.is_diag_order(o));
            assert forall|k: int| 0 <= k < o.len() implies (#[trigger] o[k]) < self.archetypes@.len() by {
                assert(o.contains(o[k]));
            }
            self.lemma_diag_unique(o, r@);
        }
        r
    }

    /// Positions in `o` of the archetypes that hold entities.
    pub open spec fn shown_positions(&self, o: Seq<usize>) -> Seq<int>
        decreases o.len(),
    {
        if o.len() == 0 {
            seq![]
        } else {
            self.shown_positions(o.drop_last()) + if self.archetype_rows()[o.last() as int].len() > 0 {
                seq![o.len() - 1]
            } else {
                seq![]
            }
        }
    }

    /// The positions `shown_positions` picks out of `o` are, in increasing
    /// order, exactly those of archetypes that hold entities.
    proof fn lemma_shown_positions(&self, o: Seq<usize>)
        ensures
            forall|j: int|
                0 <= j < self.shown_positions(o).len() ==> 0 <= #[trigger] self.shown_positions(o)[j] < o.len()
                    && self.archetype_rows()[o[self.shown_positions(o)[j]] as int].len() > 0,
            forall|i: int, j: int|
                0 <= i < j < self.shown_positions(o).len() ==> #[trigger] self.shown_positions(o)[i]
                    < #[trigger] self.shown_positions(o)[j],
            forall|p: int|
                0 <= p < o.len() && #[trigger] self.archetype_rows()[o[p] as int].len() > 0 ==> exists|j: int|
                    0 <= j < self.shown_positions(o).len() && self.shown_positions(o)[j] == p,
        decreases o.len(),
    {
        if o.len() > 0 {
            let d = o.drop_last();
            self.lemma_shown_positions(d);
            let sd = self.shown_positions(d);
            let so = self.shown_positions(o);
            assert forall|k: int| 0 <= k < d.len() implies d[k] == o[k] by {}
            assert forall|j: int| 0 <= j < sd.len() implies so[j] == sd[j] by {}
            if self.archetype_rows()[o.last() as int].len() > 0 {
                assert(so[sd.len() as int] == o.len() - 1);
            }
            assert forall|p: int|
                0 <= p < o.len() && #[trigger] self.archetype_rows()[o[p] as int].len() > 0 implies exists|j: int|
                    0 <= j < so.len() && so[j] == p by {
                if p < d.len() {
                    assert(self.archetype_rows()[d[p] as int].len() > 0);
                    let j = choose|j: int| 0 <= j < sd.len() && sd[j] == p;
                    assert(so[j] == p);
                } else {
                    assert(so[sd.len() as int] == p);
                }
            }
        }
    }

    /// The snapshot line of an entity: its handle, its parent's slot and
    /// the length of its children list.
    pub open spec fn entity_snapshot_ok(&self, s: EntitySnapshot<'_, V>, e: Entity, key: Seq<TypeKey>) -> bool {
        &&& s.id == e.index()
        &&& s.generation == e.generation()
        &&& s.components@.len() == key.len()
        &&& forall|j: int|
            0 <= j < key.len() ==> {
                &&& (#[trigger] s.components@[j]).0 == key[j]
                &&& *s.components@[j].1 == self.components(e)[key[j]]
            }
        &&& s.parent_id == match self.parent_of(e) {
            Some(p) => Some(p.index()),
            None => None::<u32>,
        }
        &&& s.child_count == match self.children_of(e) {
            Some(c) => c.len() as u32,
            None => 0u32,
        }
    }

    /// The snapshot of archetype `a`, with its entities when `expanded`.
    pub open spec fn archetype_snapshot_ok(&self, s: ArchetypeSnapshot<'_, V>, a: usize, expanded: bool) -> bool {
        &&& s.archetype == a
        &&& s.entity_count == self.archetype_rows()[a as int].len()
        &&& s.kinds@ == self.archetype_keys()[a as int]
        &&& (s.entities is Some) == expanded
        &&& s.entities is Some ==> {
            &&& s.entities->0@.len() == self.archetype_rows()[a as int].len()
            &&& forall|k: int|
                0 <= k < s.entities->0@.len() ==> self.entity_snapshot_ok(
                    #[trigger] s.entities->0@[k],
                    self.archetype_rows()[a as int][k],
                    self.archetype_keys()[a as int],
                )
        }
    }

    /// The components of the entity in row `k` of archetype `a`, by kind,
    /// in key order.
    fn row_components_of<'a>(&'a self, a: usize, k: usize) -> (r: Vec<(TypeKey, &'a V)>)
        requires
            self.wf(),
            a < self.archetypes@.len(),
            k < self.archetypes@[a as int].entities@.len(),
        ensures
            r@.len() == self.archetype_keys()[a as int].len(),
            forall|j: int|
                0 <= j < r@.len() ==> {
                    &&& (#[trigger] r@[j]).0 == self.archetype_keys()[a as int][j]
                    &&& *r@[j].1 == self.components(self.archetype_rows()[a as int][k as int])[self.archetype_keys()[a as int][j]]
                },
    {
        let arch = &self.archetypes[a];
        let ghost e = arch.entities@[k as int];
        proof {
            assert(Self::row_ok(self.allocator, self.locations@, self.archetypes@, a as int, k as int));
            assert(arch.wf());
        }
        let mut r: Vec<(TypeKey, &'a V)> = Vec::new();
        let mut j: usize = 0;
        while j < arch.key.len()
            invariant
                *arch == self.archetypes@[a as int],
                arch.wf(),
                k < arch.entities@.len(),
                j <= arch.key@.len(),
                r@.len() == j,
                forall|i: int|
                    0 <= i < j ==> (#[trigger] r@[i]).0 == arch.key@[i] && *r@[i].1 == arch.columns@[i]@[k as int],
            decreases arch.key@.len() - j,
        {
            r.push((arch.key[j], &arch.columns[j][k]));
            j = j + 1;
        }
        proof {
            assert forall|i: int| 0 <= i < r@.len() implies {
                &&& (#[trigger] r@[i]).0 == self.archetype_keys()[a as int][i]
                &&& *r@[i].1 == self.components(self.archetype_rows()[a as int][k as int])[self.archetype_keys()[a as int][i]]
            } by {
                lemma_sorted_index_of(arch.key@, i);
                assert(self.components(e) == arch.row_components(k as int));
            }
        }
        r
    }

    /// The snapshot lines of the entities of archetype `a`, in row order.
    fn entity_snapshots<'a>(&'a self, a: usize) -> (r: Vec<EntitySnapshot<'a, V>>)
        requires
            self.wf(),
            a < self.archetypes@.len(),
        ensures
            r@.len() == self.archetype_rows()[a as int].len(),
            forall|k: int|
                0 <= k < r@.len() ==> self.entity_snapshot_ok(
                    #[trigger] r@[k],
                    self.archetype_rows()[a as int][k],
                    self.archetype_keys()[a as int],
                ),
    {
        let arch = &self.archetypes[a];
        let mut out: Vec<EntitySnapshot<'a, V>> = Vec::new();
        let mut k: usize = 0;
        while k < arch.entities.len()
            invariant
                self.wf(),
                a < self.archetypes@.len(),
                *arch == self.archetypes@[a as int],
                k <= arch.entities@.len(),
                self.archetype_rows()[a as int] == arch.entities@,
                out@.len() == k,
                forall|j: int|
                    0 <= j < k ==> self.entity_snapshot_ok(
                        #[trigger] out@[j],
                        arch.entities@[j],
                        self.archetype_keys()[a as int],
                    ),
            decreases arch.entities@.len() - k,
        {
            let e = arch.entities[k];
            let parent_id = match self.get_parent(e) {
                Some(p) => Some(p.0.index()),
                None => None,
            };
            let child_count = match self.get_children(e) {
                Some(c) => c.0.len() as u32,
                None => 0,
            };
            let components = self.row_components_of(a, k);
            out.push(EntitySnapshot { id: e.index(), generation: e.generation(), components, parent_id, child_count });
            k = k + 1;
        }
        out
    }

    /// A diagnostics snapshot of the entity store: the number of live
    /// entities, the number of archetypes, and each archetype that holds
    /// entities, most populated first and, among equally populated ones,
    /// by key. Archetypes whose position in that order (empty ones counted)
    /// is listed in `expanded` come with their entities and their
    /// components.
    pub fn diagnostics_snapshot<'a>(&'a self, expanded: &Vec<usize>) -> (r: (
        usize,
        usize,
        Vec<ArchetypeSnapshot<'a, V>>,
    ))
        requires
            self.wf(),
        ensures
            r.0 == self.live_count(),
            r.1 == self.archetype_keys().len(),
            r.2@.len() == self.shown_positions(self.diag_order()).len(),
            forall|j: int|
                0 <= j < r.2@.len() ==> self.archetype_snapshot_ok(
                    #[trigger] r.2@[j],
                    self.diag_order()[self.shown_positions(self.diag_order())[j]],
                    expanded@.contains(self.shown_positions(self.diag_order())[j] as usize),
                ),
            self.is_diag_order(self.diag_order()),
            forall|j: int|
                0 <= j < r.2@.len() ==> {
                    &&& (#[trigger] r.2@[j]).archetype < self.archetype_keys().len()
                    &&& r.2@[j].entity_count > 0
                },
            forall|a: int|
                0 <= a < self.archetype_keys().len() && #[trigger] self.archetype_rows()[a].len() > 0
                    ==> exists|j: int| 0 <= j < r.2@.len() && r.2@[j].archetype == a,
            forall|i: int, j: int|
                0 <= i < j < r.2@.len() ==> {
                    ||| (#[trigger] r.2@[i]).entity_count > (#[trigger] r.2@[j]).entity_count
                    ||| r.2@[i].entity_count == r.2@[j].entity_count && key_lt(r.2@[i].kinds@, r.2@[j].kinds@)
                },
    {
        let entity_count = self.allocator.alive_count();
        let archetype_count = self.archetypes.len();
        let order = self.diag_sorted();
        let mut out: Vec<ArchetypeSnapshot<'a, V>> = Vec::new();
        let mut p: usize = 0;
        proof {
            assert(order@.take(0) =~= Seq::<usize>::empty());
        }
        while p < order.len()
            invariant
                self.wf(),
                self.is_diag_order(order@),
                order@ == self.diag_order(),
                self.archetype_rows().len() == self.archetypes@.len(),
                p <= order@.len(),
                out@.len() == self.shown_positions(order@.take(p as int)).len(),
                forall|j: int|
                    0 <= j < out@.len() ==> self.archetype_snapshot_ok(
                        #[trigger] out@[j],
                        order@[self.shown_positions(order@.take(p as int))[j]],
                        expanded@.contains(self.shown_positions(order@.take(p as int))[j] as usize),
                    ),
                forall|j: int|
                    0 <= j < self.shown_positions(order@.take(p as int)).len() ==> 0
                        <= #[trigger] self.shown_positions(order@.take(p as int))[j] < p,
            decreases order@.len() - p,
        {
            proof {
                assert(order@.contains(order@[p as int]));
                assert(order@.take(p + 1).drop_last() =~= order@.take(p as int));
            }
            let a = order[p];
            let ghost prev = self.shown_positions(order@.take(p as int));
            let ghost before = out@;
            if self.archetypes[a].entities.len() > 0 {
                let kinds = copy_vec(&self.archetypes[a].key);
                let ents = if crate::dashboard::has_index(expanded, p) {
                    Some(self.entity_snapshots(a))
                } else {
                    None
                };
                out.push(
                    ArchetypeSnapshot {
                        archetype: a,
                        entity_count: self.archetypes[a].entities.len(),
                        kinds,
                        entities: ents,
                    },
                );
                proof {
                    let now = self.shown_positions(order@.take(p + 1));
                    assert(now == prev + seq![p as int]);
                    assert forall|j: int| 0 <= j < out@.len() implies self.archetype_snapshot_ok(
                        #[trigger] out@[j],
                        order@[now[j]],
                        expanded@.contains(now[j] as usize),
                    ) by {
                        if j < before.len() {
                            assert(out@[j] == before[j]);
                            assert(now[j] == prev[j]);
                            assert(order@.take(p as int)[prev[j]] == order@[prev[j]]);
                        }
                    }
                }
            } else {
                proof {
                    let now = self.shown_positions(order@.take(p + 1));
                    assert(now == prev);
                    assert forall|j: int| 0 <= j < out@.len() implies self.archetype_snapshot_ok(
                        #[trigger] out@[j],
                        order@[now[j]],
                        expanded@.contains(now[j] as usize),
                    ) by {
                        assert(order@.take(p as int)[prev[j]] == order@[prev[j]]);
                    }
                }
            }
            p = p + 1;
        }
        proof {
            assert(order@.take(p as int) =~= order@);
            let o = order@;
            let sp = self.shown_positions(o);
            self.lemma_shown_positions(o);
            assert(self.archetype_rows().len() == self.archetype_keys().len());
            assert forall|j: int| 0 <= j < out@.len() implies {
                &&& (#[trigger] out@[j]).archetype < self.archetype_keys().len()
                &&& out@[j].entity_count > 0
            } by {
                assert(o.contains(o[sp[j]]));
            }
            assert forall|a: int|
                0 <= a < self.archetype_keys().len() && #[trigger] self.archetype_rows()[a].len() > 0
                    implies exists|j: int| 0 <= j < out@.len() && out@[j].archetype == a by {
                assert(o.contains(a as usize));
                let q = o.index_of(a as usize);
                assert(self.archetype_rows()[o[q] as int].len() > 0);
                let j = choose|j: int| 0 <= j < sp.len() && sp[j] == q;
                assert(out@[j].archetype == a);
            }
            assert forall|i: int, j: int| 0 <= i < j < out@.len() implies {
                ||| (#[trigger] out@[i]).entity_count > (#[trigger] out@[j]).entity_count
                ||| out@[i].entity_count == out@[j].entity_count && key_lt(out@[i].kinds@, out@[j].kinds@)
            } by {
                assert(sp[i] < sp[j]);
                assert(self.diag_before(o[sp[i]] as int, o[sp[j]] as int));
            }
        }
        (entity_count, archetype_count, out)
    }

    /// Number of entity slots ever allocated.
    pub closed spec fn slot_count(&self) -> nat {
        self.allocator.generations().len()
    }

    /// Number of entity slots waiting for reuse.
    pub closed spec fn free_slot_count(&self) -> nat {
        self.allocator.free_slots().len()
    }

    /// Slot usage of the entity allocator and the spawn and despawn counts
    /// since the last call, which start over at zero.
    pub fn diagnostics_entity_stats(&mut self) -> (r: EntityPoolStats)
        requires
            old(self).wf(),
        ensures
            r.total_slots == old(self).slot_count(),
            r.free_count == old(self).free_slot_count(),
            r.alive_count == old(self).live_count(),
            r.spawned_this_tick == old(self).spawned_count(),
            r.despawned_this_tick == old(self).despawned_count(),
            old(self).live_count() == old(self).slot_count() - old(self).free_slot_count(),
            final(self).wf(),
            final(self).spawned_count() == 0,
            final(self).despawned_count() == 0,
            final(self).same_entities(old(self)),
            final(self).slot_count() == old(self).slot_count(),
            final(self).handed_out() == old(self).handed_out(),
            final(self).free_slot_count() == old(self).free_slot_count(),
            final(self).resources() == old(self).resources(),
            final(self).names() == old(self).names(),
            final(self).slot_names() == old(self).slot_names(),
            final(self).tags() == old(self).tags(),
            final(self).slot_tags() == old(self).slot_tags(),
    {
        let stats = EntityPoolStats {
            total_slots: self.allocator.total_slots(),
            free_count: self.allocator.free_count(),
            alive_count: self.allocator.alive_count(),
            spawned_this_tick: self.spawned_this_frame,
            despawned_this_tick: self.despawned_this_frame,
        };
        self.spawned_this_frame = 0;
        self.despawned_this_frame = 0;
        stats
    }

    // ── Queries ───────────────────────────────────────────────────────

    /// Whether an archetype carries every listed kind.
    fn archetype_matches(arch: &Archetype<V>, required: &Vec<TypeKey>) -> (r: bool)
        ensures
            r == (forall|i: int| 0 <= i < required@.len() ==> arch.key@.contains(#[trigger] required@[i])),
    {
        let mut i: usize = 0;
        while i < required.len()
            invariant
                i <= required@.len(),
                forall|k: int| 0 <= k < i ==> arch.key@.contains(#[trigger] required@[k]),
            decreases required@.len() - i,
        {
            if !arch.has_component(required[i]) {
                return false;
            }
            i = i + 1;
        }
        true
    }

    proof fn lemma_row_entity(&self, b: int, j: int)
        requires
            self.wf(),
            0 <= b < self.archetypes@.len(),
            0 <= j < self.archetypes@[b].entities@.len(),
        ensures
            self.contains(self.archetypes@[b].entities@[j]),
            self.components(self.archetypes@[b].entities@[j]) == self.archetypes@[b].row_components(j),
            self.locations@[self.archetypes@[b].entities@[j].index() as int] == Some(
                EntityLocation { archetype: b as usize, row: j as usize },
            ),
    {
        assert(Self::row_ok(self.allocator, self.locations@, self.archetypes@, b, j));
    }

    proof fn lemma_entity_row(&self, x: Entity) -> (p: (int, int))
        requires
            self.wf(),
            self.contains(x),
        ensures
            0 <= p.0 < self.archetypes@.len(),
            0 <= p.1 < self.archetypes@[p.0].entities@.len(),
            self.archetypes@[p.0].entities@[p.1] == x,
            self.components(x) == self.archetypes@[p.0].row_components(p.1),
    {
        let i = x.index() as int;
        assert(self.locations@[i].is_some());
        assert(Self::loc_ok(self.allocator.generations(), self.locations@, self.archetypes@, i));
        let l = self.locations@[i].unwrap();
        x.lemma_eq(self.archetypes@[l.archetype as int].entities@[l.row as int]);
        (l.archetype as int, l.row as int)
    }

    /// The live entities that have a component of every listed kind, each
    /// once, archetype by archetype.
    fn collect_matching(&self, required: &Vec<TypeKey>) -> (r: Vec<Entity>)
        requires
            self.wf(),
        ensures
            r@.no_duplicates(),
            forall|x: Entity| #[trigger] r@.contains(x) <==> self.matches(x, required@),
    {
        let mut r: Vec<Entity> = Vec::new();
        let mut a: usize = 0;
        while a < self.archetypes.len()
            invariant
                self.wf(),
                a <= self.archetypes@.len(),
                r@.no_duplicates(),
                forall|x: Entity| #[trigger] r@.contains(x) ==> self.contains(x)
                    && self.locations@[x.index() as int].unwrap().archetype < a,
                forall|x: Entity| #[trigger] r@.contains(x) ==> self.matches(x, required@),
                forall|b: int, j: int|
                    0 <= b < a && 0 <= j < self.archetypes@[b].entities@.len()
                        && self.matches(self.archetypes@[b].entities@[j], required@)
                        ==> r@.contains(#[trigger] self.archetypes@[b].entities@[j]),
            decreases self.archetypes@.len() - a,
        {
            let ok = Self::archetype_matches(&self.archetypes[a], required);
            let ghost ai = a as int;
            if ok {
                let mut j: usize = 0;
                while j < self.archetypes[a].entities.len()
                    invariant
                        self.wf(),
                        a < self.archetypes@.len(),
                        ai == a,
                        j <= self.archetypes@[ai].entities@.len(),
                        forall|i: int| 0 <= i < required@.len() ==> self.archetypes@[ai].key@.contains(#[trigger] required@[i]),
                        r@.no_duplicates(),
                        forall|x: Entity| #[trigger] r@.contains(x) ==> self.contains(x)
                            && (self.locations@[x.index() as int].unwrap().archetype < a
                            || (self.locations@[x.index() as int].unwrap().archetype == a
                            && self.locations@[x.index() as int].unwrap().row < j)),
                        forall|x: Entity| #[trigger] r@.contains(x) ==> self.matches(x, required@),
                        forall|b: int, jj: int|
                            0 <= b < a && 0 <= jj < self.archetypes@[b].entities@.len()
                                && self.matches(self.archetypes@[b].entities@[jj], required@)
                                ==> r@.contains(#[trigger] self.archetypes@[b].entities@[jj]),
                        forall|jj: int| 0 <= jj < j ==> r@.contains(#[trigger] self.archetypes@[ai].entities@[jj]),
                    decreases self.archetypes@[ai].entities@.len() - j,
                {
                    let x = self.archetypes[a].entities[j];
                    proof {
                        self.lemma_row_entity(ai, j as int);
                        assert(!r@.contains(x)) by {
                            if r@.contains(x) {
                                assert(self.locations@[x.index() as int].unwrap().archetype == a);
                            }
                        }
                        assert forall|i: int| 0 <= i < required@.len() implies #[trigger] self.components(x).contains_key(required@[i]) by {
                            assert(self.archetypes@[ai].key@.contains(required@[i]));
                        }
                    }
                    let ghost before = r@;
                    r.push(x);
                    proof {
                        assert forall|y: Entity| #[trigger] r@.contains(y) <==> (before.contains(y) || y == x) by {
                            vstd::seq_lib::lemma_seq_contains_after_push(before, x, y);
                        }
                        assert forall|p: int, q: int| 0 <= p < r@.len() && 0 <= q < r@.len() && p != q implies r@[p] != r@[q] by {
                            if p == before.len() {
                                assert(before.contains(r@[q]));
                            } else if q == before.len() {
                                assert(before.contains(r@[p]));
                            }
                        }
                    }
                    j = j + 1;
                }
            } else {
                proof {
                    assert forall|jj: int| 0 <= jj < self.archetypes@[ai].entities@.len() implies !self.matches(#[trigger] self.archetypes@[ai].entities@[jj], required@) by {
                        self.lemma_row_entity(ai, jj);
                        let i = choose|i: int| 0 <= i < required@.len() && !self.archetypes@[ai].key@.contains(#[trigger] required@[i]);
                        assert(!self.components(self.archetypes@[ai].entities@[jj]).contains_key(required@[i]));
                    }
                }
            }
            a = a + 1;
        }
        proof {
            assert forall|x: Entity| #[trigger] self.matches(x, required@) implies r@.contains(x) by {
                let (b, j) = self.lemma_entity_row(x);
                assert(r@.contains(self.archetypes@[b].entities@[j]));
            }
        }
        r
    }

    /// The live entities that have a component of the given kind, each once.
    pub fn entities_with(&self, type_id: TypeKey) -> (r: Vec<Entity>)
        requires
            self.wf(),
        ensures
            r@.no_duplicates(),
            forall|x: Entity| #[trigger] r@.contains(x) <==> (self.contains(x) && self.components(x).contains_key(type_id)),
    {
        let mut required: Vec<TypeKey> = Vec::new();
        required.push(type_id);
        let r = self.collect_matching(&required);
        proof {
            assert forall|x: Entity| #[trigger] r@.contains(x) <==> (self.contains(x) && self.components(x).contains_key(type_id)) by {
                if self.contains(x) && self.components(x).contains_key(type_id) {
                    assert forall|i: int| 0 <= i < required@.len() implies #[trigger] self.components(x).contains_key(required@[i]) by {}
                }
                if r@.contains(x) {
                    assert(self.components(x).contains_key(required@[0]));
                }
            }
        }
        r
    }

    /// Whether some live entity has a component of the given kind.
    pub fn has_component_type(&self, type_id: TypeKey) -> (r: bool)
        requires
            self.wf(),
        ensures
            r == exists|x: Entity| self.contains(x) && #[trigger] self.components(x).contains_key(type_id),
    {
        let found = self.entities_with(type_id);
        if found.len() > 0 {
            proof {
                assert(found@.contains(found@[0]));
                let x = found@[0];
                assert(self.contains(x) && self.components(x).contains_key(type_id));
            }
            true
        } else {
            proof {
                if exists|x: Entity| self.contains(x) && #[trigger] self.components(x).contains_key(type_id) {
                    let x = choose|x: Entity| self.contains(x) && #[trigger] self.components(x).contains_key(type_id);
                    assert(found@.contains(x));
                }
            }
            false
        }
    }

    /// The live entities that have a component of every listed kind, each
    /// once. Their components are then read or changed with `get` and
    /// `get_mut`.
    pub fn query(&self, required: &Vec<TypeKey>) -> (r: Vec<Entity>)
        requires
            self.wf(),
        ensures
            r@.no_duplicates(),
            forall|x: Entity| #[trigger] r@.contains(x) <==> self.matches(x, required@),
    {
        self.collect_matching(required)
    }

    /// The live entities that have a component of every listed kind and of
    /// the marker kind `filter`, each once.
    pub fn query_filtered(&self, required: &Vec<TypeKey>, filter: TypeKey) -> (r: Vec<Entity>)
        requires
            self.wf(),
        ensures
            r@.no_duplicates(),
            forall|x: Entity| #[trigger] r@.contains(x) <==> self.matches(x, required@.push(filter)),
    {
        let mut all = copy_vec(required);
        all.push(filter);
        self.collect_matching(&all)
    }

    /// The single live entity that has a component of every listed kind and
    /// of the marker kind `filter`, or `None` if there is none. At most one
    /// entity may match.
    pub fn query_single(&self, required: &Vec<TypeKey>, filter: TypeKey) -> (r: Option<Entity>)
        requires
            self.wf(),
            forall|x: Entity, y: Entity|
                self.matches(x, required@.push(filter)) && self.matches(y, required@.push(filter))
                    ==> x == y,
        ensures
            match r {
                Some(x) => self.matches(x, required@.push(filter)),
                None => forall|x: Entity| !self.matches(x, required@.push(filter)),
            },
    {
        let found = self.query_filtered(required, filter);
        if found.len() > 0 {
            proof {
                assert(found@.contains(found@[0]));
            }
            Some(found[0])
        } else {
            proof {
                assert forall|x: Entity| !self.matches(x, required@.push(filter)) by {
                    if self.matches(x, required@.push(filter)) {
                        assert(found@.contains(x));
                    }
                }
            }
            None
        }
    }

    /// The component of kind `type_id` of `entity`, if the entity is alive
    /// and has one (the same lookup as [`World::get`]).
    pub fn get_any_by_type_id(&self, entity: Entity, type_id: TypeKey) -> (r: Option<&V>)
        requires
            self.wf(),
        ensures
            match r {
                Some(v) => {
                    &&& self.contains(entity)
                    &&& self.components(entity).contains_key(type_id)
                    &&& *v == self.components(entity)[type_id]
                },
                None => !(self.contains(entity) && self.components(entity).contains_key(type_id)),
            },
    {
        self.get(entity, type_id)
    }

    /// Add a component to a live entity unless it already has one of that
    /// kind, in which case nothing changes.
    pub fn insert_any_component(&mut self, entity: Entity, type_id: TypeKey, component: V)
        requires
            old(self).wf(),
            old(self).contains(entity),
        ensures
            final(self).spawned_count() == old(self).spawned_count(),
            final(self).slot_count() == old(self).slot_count(),
            final(self).handed_out() == old(self).handed_out(),
            final(self).despawned_count() == old(self).despawned_count(),
            final(self).wf(),
            final(self).contains(entity),
            final(self).components(entity) == (if old(self).components(entity).contains_key(type_id) {
                old(self).components(entity)
            } else {
                old(self).components(entity).insert(type_id, component)
            }),
            final(self).parent_of(entity) == old(self).parent_of(entity),
            final(self).children_of(entity) == old(self).children_of(entity),
            final(self).others_unchanged(old(self), entity),
            final(self).live_count() == old(self).live_count(),
            final(self).same_tables(old(self)),
    {
        if self.cell_of(entity, type_id).is_some() {
            return;
        }
        self.insert(entity, type_id, component);
    }

    /// Every live entity once, with the kinds of its components in
    /// increasing order.
    #[verifier::spinoff_prover]
    pub fn for_each_entity(&self) -> (r: Vec<(Entity, Vec<TypeKey>)>)
        requires
            self.wf(),
        ensures
            forall|i: int, j: int| 0 <= i < r@.len() && 0 <= j < r@.len() && i != j ==> r@[i].0 != r@[j].0,
            forall|x: Entity| self.contains(x) <==> exists|i: int| 0 <= i < r@.len() && r@[i].0 == x,
            forall|i: int| 0 <= i < r@.len() ==> sorted_strict(#[trigger] r@[i].1@),
            forall|i: int, k: TypeKey| 0 <= i < r@.len() ==> (#[trigger] r@[i].1@.contains(k)
                <==> self.components(r@[i].0).contains_key(k)),
    {
        let none: Vec<TypeKey> = Vec::new();
        let all = self.collect_matching(&none);
        let mut out: Vec<(Entity, Vec<TypeKey>)> = Vec::new();
        let mut i: usize = 0;
        while i < all.len()
            invariant
                self.wf(),
                i <= all@.len(),
                all@.no_duplicates(),
                forall|x: Entity| #[trigger] all@.contains(x) <==> self.matches(x, none@),
                out@.len() == i,
                forall|k: int| 0 <= k < i ==> (#[trigger] out@[k]).0 == all@[k],
                forall|k: int| 0 <= k < i ==> sorted_strict(#[trigger] out@[k].1@),
                forall|k: int, t: TypeKey| 0 <= k < i ==> (#[trigger] out@[k].1@.contains(t)
                    <==> self.components(out@[k].0).contains_key(t)),
            decreases all@.len() - i,
        {
            let x = all[i];
            proof {
                assert(all@.contains(x));
                assert(self.locations@[x.index() as int].is_some());
                assert(Self::loc_ok(self.allocator.generations(), self.locations@, self.archetypes@, x.index() as int));
            }
            let loc = self.locations[x.index() as usize].unwrap();
            proof {
                x.lemma_eq(self.archetypes@[loc.archetype as int].entities@[loc.row as int]);
                assert(self.archetypes@[loc.archetype as int].wf());
            }
            let key = copy_vec(&self.archetypes[loc.archetype].key);
            out.push((x, key));
            i = i + 1;
        }
        proof {
            assert forall|x: Entity| self.contains(x) <==> exists|k: int| 0 <= k < out@.len() && out@[k].0 == x by {
                if self.contains(x) {
                    assert(self.matches(x, none@));
                    assert(all@.contains(x));
                    let k = choose|k: int| 0 <= k < all@.len() && all@[k] == x;
                    assert(out@[k].0 == x);
                }
                if exists|k: int| 0 <= k < out@.len() && out@[k].0 == x {
                    let k = choose|k: int| 0 <= k < out@.len() && out@[k].0 == x;
                    assert(all@[k] == x);
                    assert(all@.contains(x));
                }
            }
        }
        out
    }

    /// Despawn every entity and clear all names and tags.
    pub fn despawn_all(&mut self)
        requires
            old(self).wf(),
            forall|x: Entity| old(self).contains(x) ==> x.generation() < u32::MAX,
        ensures
            final(self).wf(),
            forall|x: Entity| !final(self).contains(x),
            final(self).live_count() == 0,
            final(self).resources() == old(self).resources(),
            final(self).archetype_keys() == old(self).archetype_keys(),
            final(self).names() == Map::<Seq<char>, Entity>::empty(),
            final(self).slot_names() == Map::<u32, Seq<char>>::empty(),
            final(self).tags() == Map::<Seq<char>, Set<Entity>>::empty(),
            final(self).slot_tags() == Map::<u32, Seq<Seq<char>>>::empty(),
            final(self).spawned_count() == old(self).spawned_count(),
            final(self).slot_count() == old(self).slot_count(),
            final(self).handed_out() == old(self).handed_out(),
            final(self).despawned_count() == count_after(old(self).despawned_count(), old(self).live_count()),
    {
        let none: Vec<TypeKey> = Vec::new();
        let all = self.collect_matching(&none);
        proof {
            assert forall|x: Entity| #[trigger] self.contains(x) <==> exists|k: int| 0 <= k < all@.len() && all@[k] == x by {
                if self.contains(x) {
                    assert(self.matches(x, none@));
                    assert(all@.contains(x));
                }
                if exists|k: int| 0 <= k < all@.len() && all@[k] == x {
                    let k = choose|k: int| 0 <= k < all@.len() && all@[k] == x;
                    assert(all@.contains(x));
                }
            }
        }
        proof {
            lemma_count_step(old(self).despawned_count(), 0);
        }
        let mut i: usize = 0;
        while i < all.len()
            invariant
                self.wf(),
                i <= all@.len(),
                all@.no_duplicates(),
                forall|x: Entity| #[trigger] self.contains(x) <==> exists|k: int| i <= k < all@.len() && all@[k] == x,
                forall|x: Entity| self.contains(x) ==> x.generation() < u32::MAX,
                self.resources() == old(self).resources(),
                self.archetype_keys() == old(self).archetype_keys(),
                self.live_count() == old(self).live_count() - i,
                self.spawned_count() == old(self).spawned_count(),
                self.slot_count() == old(self).slot_count(),
                self.handed_out() == old(self).handed_out(),
                self.despawned_count() == count_after(old(self).despawned_count(), i as int),
            decreases all@.len() - i,
        {
            let x = all[i];
            proof {
                assert(self.contains(x));
            }
            self.despawn(x);
            proof {
                lemma_count_step(old(self).despawned_count(), i as int);
                assert forall|y: Entity| #[trigger] self.contains(y) <==> exists|k: int| i + 1 <= k < all@.len() && all@[k] == y by {
                    if y != x {
                        if exists|k: int| i <= k < all@.len() && all@[k] == y {
                            let k = choose|k: int| i <= k < all@.len() && all@[k] == y;
                            assert(k != i);
                        }
                    } else {
                        if exists|k: int| i + 1 <= k < all@.len() && all@[k] == y {
                            let k = choose|k: int| i + 1 <= k < all@.len() && all@[k] == y;
                            assert(all@[k] == all@[i as int]);
                        }
                    }
                }
            }
            i = i + 1;
        }
        let ghost snap = *self;
        assert(forall|x: Entity| !snap.contains(x));
        self.names.clear();
        self.names_reverse.clear();
        self.tags.clear();
        self.entity_tags.clear();
        proof {
            Self::lemma_same_store(self, &snap);
            assert forall|x: Entity| !self.allocator.holds(x) by {
                assert(!self.contains(x));
            }
            self.allocator.lemma_none_held();
            assert(self.slot_names() =~= Map::<u32, Seq<char>>::empty());
            assert(self.tags() =~= Map::<Seq<char>, Set<Entity>>::empty());
            assert(self.slot_tags() =~= Map::<u32, Seq<Seq<char>>>::empty());
        }
    }

    // ── Tags ──────────────────────────────────────────────────────────

    /// Add a tag to an entity. An entity can carry many tags and many
    /// entities can share a tag.
    pub fn tag(&mut self, entity: Entity, tag: &str)
        requires
            old(self).wf(),
        ensures
            final(self).spawned_count() == old(self).spawned_count(),
            final(self).slot_count() == old(self).slot_count(),
            final(self).handed_out() == old(self).handed_out(),
            final(self).despawned_count() == old(self).despawned_count(),
            final(self).wf(),
            final(self).tags() == Self::tags_with(old(self).tags(), tag@, entity),
            final(self).slot_tags() == Self::slot_tags_with(
                old(self).slot_tags(),
                entity.index(),
                tag@,
            ),
            final(self).resources() == old(self).resources(),
            final(self).names() == old(self).names(),
            final(self).slot_names() == old(self).slot_names(),
            final(self).same_entities(old(self)),
    {
        broadcast use vstd::seq_lib::group_seq_properties;

        let key = tag.to_owned();
        let ghost old_tags = self.tags.view();
        match self.tags.get_mut(&key) {
            Some(set) => {
                let ghost before = set@;
                if !contains_entity(set, entity) {
                    set.push(entity);
                    proof {
                        assert(set@.no_duplicates()) by {
                            assert forall|i: int, j: int|
                                0 <= i < set@.len() && 0 <= j < set@.len() && i != j implies set@[i]
                                != set@[j] by {
                                if i == before.len() as int {
                                    assert(before.contains(set@[j]));
                                } else if j == before.len() as int {
                                    assert(before.contains(set@[i]));
                                }
                            }
                        }
                        assert(set@.to_set() =~= before.to_set().insert(entity));
                    }
                } else {
                    assert(before.to_set() =~= before.to_set().insert(entity));
                }
            },
            None => {
                let mut v: Vec<Entity> = Vec::new();
                v.push(entity);
                assert(v@.to_set() =~= Set::empty().insert(entity));
                self.tags.insert(key, v);
            },
        }
        proof {
            assert forall|t: Seq<char>| #[trigger] self.tags.view().contains_key(t) implies self.tags.view()[t]@.no_duplicates() by {
                if t != tag@ {
                    assert(old_tags.contains_key(t));
                }
            }
            assert(self.tags() =~= Self::tags_with(old(self).tags(), tag@, entity));
        }
        let idx = entity.index();
        match self.entity_tags.get_mut(&idx) {
            Some(list) => {
                let ghost before_list = list@;
                list.push(tag.to_owned());
                assert(strings_view(list@) =~= strings_view(before_list).push(tag@));
            },
            None => {
                let mut v: Vec<String> = Vec::new();
                v.push(tag.to_owned());
                assert(strings_view(v@) =~= seq![tag@]);
                self.entity_tags.insert(idx, v);
            },
        }
        proof {
            assert(self.slot_tags() =~= Self::slot_tags_with(old(self).slot_tags(), idx, tag@));
        }
    }

    /// The entities carrying a tag, each once (none for an unknown tag).
    pub fn tagged(&self, tag: &str) -> (r: Vec<Entity>)
        requires
            self.wf(),
        ensures
            r@.no_duplicates(),
            r@.to_set() == (if self.tags().contains_key(tag@) {
                self.tags()[tag@]
            } else {
                Set::empty()
            }),
            forall|x: Entity| #[trigger] r@.contains(x) <==> (self.tags().contains_key(tag@) && self.tags()[tag@].contains(x)),
            !self.tags().contains_key(tag@) ==> r@.len() == 0,
    {
        broadcast use vstd::seq_lib::group_seq_properties;

        let key = tag.to_owned();
        match self.tags.get(&key) {
            Some(set) => copy_vec(set),
            None => {
                let r: Vec<Entity> = Vec::new();
                assert(r@.to_set() =~= Set::empty());
                r
            },
        }
    }

    // ── Names ─────────────────────────────────────────────────────────

    /// The entity with the given name. The caller must know the name is in
    /// use.
    pub fn named(&self, name: &str) -> (e: Entity)
        requires
            self.wf(),
            self.names().contains_key(name@),
        ensures
            e == self.names()[name@],
    {
        let key = name.to_owned();
        *self.names.get(&key).unwrap()
    }

    /// The entity with the given name, if the name is in use.
    pub fn try_named(&self, name: &str) -> (r: Option<Entity>)
        requires
            self.wf(),
        ensures
            r == (if self.names().contains_key(name@) {
                Some(self.names()[name@])
            } else {
                None
            }),
    {
        let key = name.to_owned();
        match self.names.get(&key) {
            Some(e) => Some(*e),
            None => None,
        }
    }

    /// Give an entity a name. The name must not be in use yet.
    pub fn name_entity(&mut self, entity: Entity, name: &str)
        requires
            old(self).wf(),
            !old(self).names().contains_key(name@),
        ensures
            final(self).spawned_count() == old(self).spawned_count(),
            final(self).slot_count() == old(self).slot_count(),
            final(self).handed_out() == old(self).handed_out(),
            final(self).despawned_count() == old(self).despawned_count(),
            final(self).wf(),
            final(self).names() == old(self).names().insert(name@, entity),
            final(self).slot_names() == old(self).slot_names().insert(entity.index(), name@),
            final(self).resources() == old(self).resources(),
            final(self).tags() == old(self).tags(),
            final(self).slot_tags() == old(self).slot_tags(),
            final(self).same_entities(old(self)),
    {
        self.names.insert(name.to_owned(), entity);
        self.names_reverse.insert(entity.index(), name.to_owned());
        proof {
            assert(self.slot_names() =~= old(self).slot_names().insert(entity.index(), name@));
        }
    }
}

/// What a read gives back of a write: after `insert` of `value` under
/// `kind` on a live entity (`w0` to `w1`), the entity holds exactly that
/// value under that kind, and its other components are unchanged; after
/// `remove` of the kind (`w1` to `w2`), it has no component of that kind.
pub proof fn law_get_after_insert_and_remove<V>(
    w0: World<V>,
    w1: World<V>,
    w2: World<V>,
    entity: Entity,
    kind: TypeKey,
    value: V,
    other: TypeKey,
)
    requires
        w1.contains(entity),
        w1.components(entity) == w0.components(entity).insert(kind, value),
        w2.contains(entity),
        w2.components(entity) == w1.components(entity).remove(kind),
        other != kind,
    ensures
        w1.components(entity).contains_key(kind),
        w1.components(entity)[kind] == value,
        w1.components(entity).contains_key(other) == w0.components(entity).contains_key(other),
        w0.components(entity).contains_key(other) ==> w1.components(entity)[other] == w0.components(
            entity,
        )[other],
        !w2.components(entity).contains_key(kind),
{
}

/// A despawned entity is gone for reads: once `despawn` has removed it,
/// the world does not contain it, so `get` of any kind gives nothing and
/// its handle is no longer alive.
pub proof fn law_despawned_entity_is_gone<V>(w: World<V>, entity: Entity, kind: TypeKey)
    requires
        !w.contains(entity),
    ensures
        !(w.contains(entity) && w.components(entity).contains_key(kind)),
{
}

/// A name names one entity: after `name_entity(e, n)` the name maps to `e`
/// and every other name keeps its entity.
pub proof fn law_name_lookup<V>(w0: World<V>, w1: World<V>, e: Entity, name: Seq<char>, other: Seq<char>)
    requires
        !w0.names().contains_key(name),
        w1.names() == w0.names().insert(name, e),
        other != name,
    ensures
        w1.names()[name] == e,
        w1.names().contains_key(other) == w0.names().contains_key(other),
        w0.names().contains_key(other) ==> w1.names()[other] == w0.names()[other],
{
}

/// A stale handle never reaches the entity that reuses its slot: once `e`
/// is despawned (`w0` to `w1`) and another entity `e2` is spawned (`w1` to
/// `w2`), even into the same slot, `e2` differs from `e`, `e` is not alive
/// and `get` of any kind through `e` gives nothing.
pub proof fn law_stale_handle_stays_dead<V>(
    w0: World<V>,
    w1: World<V>,
    w2: World<V>,
    e: Entity,
    e2: Entity,
    kind: TypeKey,
)
    requires
        w0.wf(),
        w0.contains(e),
        !w1.contains(e),
        w1.handed_out() == w0.handed_out(),
        !w1.handed_out().contains(e2),
        w2.handed_out() == w1.handed_out().insert(e2),
        w2.others_unchanged(&w1, e2),
    ensures
        e2 != e,
        !w2.contains(e),
        !(w2.contains(e) && w2.components(e).contains_key(kind)),
{
    w0.lemma_contains_handed_out(e);
}

} // verus!
