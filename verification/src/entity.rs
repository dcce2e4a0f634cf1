//! Generational entity handles and their allocator.
//!
//! An [`Entity`] pairs a slot index with a generation counter. When a slot is
//! freed its generation is bumped, so any handle kept from before the free is
//! recognised as stale afterwards.
use vstd::prelude::*;

verus! {

/// A lightweight handle to an entity: a slot index and the slot's generation
/// at the time the handle was handed out.
#[derive(Clone, Copy, PartialEq, Eq, Hash, Debug, Structural)]
pub struct Entity {
    index: u32,
    generation: u32,
}

impl Entity {
    /// Slot index of the handle.
    pub closed spec fn spec_index(self) -> u32 {
        self.index
    }

    /// Generation of the handle.
    pub closed spec fn spec_generation(self) -> u32 {
        self.generation
    }

    /// Returns the raw slot index.
    #[verifier::when_used_as_spec(spec_index)]
    pub fn index(self) -> (r: u32)
        ensures
            r == self.spec_index(),
    {
        self.index
    }

    /// Returns the generation.
    #[verifier::when_used_as_spec(spec_generation)]
    pub fn generation(self) -> (r: u32)
        ensures
            r == self.spec_generation(),
    {
        self.generation
    }

    /// Two handles are equal exactly when index and generation agree.
    pub proof fn lemma_eq(self, other: Entity)
        ensures
            (self == other) <==> (self.index() == other.index() && self.generation()
                == other.generation()),
    {
    }
}

/// The number `n` of values below `n` bounds every duplicate-free list of
/// such values.
pub proof fn lemma_distinct_below(s: Seq<u32>, n: nat)
    requires
        s.no_duplicates(),
        forall|i: int| 0 <= i < s.len() ==> (#[trigger] s[i]) < n,
    ensures
        s.len() <= n,
{
    let below = Set::new(|x: u32| x < n);
    lemma_below_finite(n);
    s.unique_seq_to_set();
    assert(s.to_set().subset_of(below));
    vstd::set_lib::lemma_len_subset(s.to_set(), below);
}

proof fn lemma_below_finite(n: nat)
    ensures
        Set::new(|x: u32| x < n).finite(),
        Set::new(|x: u32| x < n).len() <= n,
        n <= u32::MAX + 1 ==> Set::new(|x: u32| x < n).len() == n,
    decreases n,
{
    if n == 0 {
        assert(Set::new(|x: u32| x < n) =~= Set::empty());
    } else {
        lemma_below_finite((n - 1) as nat);
        let smaller = Set::new(|x: u32| x < (n - 1) as nat);
        if n - 1 <= u32::MAX {
            let top = (n - 1) as u32;
            assert(!smaller.contains(top));
            assert(Set::new(|x: u32| x < n) =~= smaller.insert(top));
        } else {
            assert(Set::new(|x: u32| x < n) =~= smaller);
        }
    }
}

/// Hands out entity handles and recycles freed slots.
///
/// `generations[i]` is the generation of slot `i`; `free_list` holds the
/// slots available for reuse, the most recently freed one last; `len` is the
/// number of slots ever created.
pub struct EntityAllocator {
    generations: Vec<u32>,
    free_list: Vec<u32>,
    len: u32,
}

impl EntityAllocator {
    /// Generation of every slot ever created, by slot index.
    pub closed spec fn generations(&self) -> Seq<u32> {
        self.generations@
    }

    /// Slots waiting to be reused, in the order they were freed.
    pub closed spec fn free_slots(&self) -> Seq<u32> {
        self.free_list@
    }

    /// Representation invariant.
    pub closed spec fn wf(&self) -> bool {
        &&& self.generations@.len() == self.len
        &&& self.free_list@.no_duplicates()
        &&& forall|i: int|
            0 <= i < self.free_list@.len() ==> (#[trigger] self.free_list@[i]) < self.len
    }

    /// The allocator's own notion of a live handle: the slot exists and its
    /// generation matches.
    pub open spec fn handle_alive(&self, e: Entity) -> bool {
        &&& e.index() < self.generations().len()
        &&& self.generations()[e.index() as int] == e.generation()
    }

    /// A handle that was handed out and not freed since: alive, and its slot
    /// is not waiting for reuse.
    pub open spec fn holds(&self, e: Entity) -> bool {
        &&& self.handle_alive(e)
        &&& !self.free_slots().contains(e.index())
    }

    /// Whether a slot is in use.
    pub open spec fn slot_in_use(&self, i: int) -> bool {
        0 <= i < self.generations().len() && !self.free_slots().contains(i as u32)
    }

    /// Another handle can be handed out without the slot count overflowing.
    pub open spec fn can_allocate(&self) -> bool {
        self.free_slots().len() > 0 || self.generations().len() < u32::MAX
    }

    /// The handle that the next call of `allocate` hands out.
    pub open spec fn next_handle_index(&self) -> u32 {
        if self.free_slots().len() > 0 {
            self.free_slots().last()
        } else {
            self.generations().len() as u32
        }
    }

    /// Number of live slots.
    pub open spec fn spec_alive_count(&self) -> int {
        self.generations().len() - self.free_slots().len()
    }

    pub proof fn lemma_wf_bounds(&self)
        requires
            self.wf(),
        ensures
            self.free_slots().len() <= self.generations().len(),
            self.generations().len() <= u32::MAX,
            forall|i: int|
                0 <= i < self.free_slots().len() ==> (#[trigger] self.free_slots()[i])
                    < self.generations().len(),
            self.free_slots().no_duplicates(),
    {
        lemma_distinct_below(self.free_list@, self.len as nat);
    }

    /// When no handle is held, every slot is waiting for reuse.
    pub proof fn lemma_none_held(&self)
        requires
            self.wf(),
            forall|x: Entity| !self.holds(x),
        ensures
            self.spec_alive_count() == 0,
    {
        let n = self.len as nat;
        let below = Set::new(|x: u32| x < n);
        lemma_below_finite(n);
        self.lemma_wf_bounds();
        self.free_list@.unique_seq_to_set();
        assert forall|i: u32| below.contains(i) implies self.free_list@.to_set().contains(i) by {
            let x = Entity { index: i, generation: self.generations@[i as int] };
            assert(!self.holds(x));
        }
        assert(below.subset_of(self.free_list@.to_set()));
        vstd::set_lib::lemma_len_subset(below, self.free_list@.to_set());
    }

    pub fn new() -> (r: Self)
        ensures
            r.wf(),
            r.generations() == Seq::<u32>::empty(),
            r.free_slots() == Seq::<u32>::empty(),
    {
        EntityAllocator { generations: Vec::new(), free_list: Vec::new(), len: 0 }
    }

    /// Allocate a handle, reusing the most recently freed slot if there is
    /// one, otherwise creating a fresh slot with generation 0.
    pub fn allocate(&mut self) -> (e: Entity)
        requires
            old(self).wf(),
            old(self).can_allocate(),
        ensures
            final(self).wf(),
            e.index() == old(self).next_handle_index(),
            old(self).free_slots().len() > 0 ==> {
                &&& e.generation() == old(self).generations()[e.index() as int]
                &&& final(self).generations() == old(self).generations()
                &&& final(self).free_slots() == old(self).free_slots().drop_last()
            },
            old(self).free_slots().len() == 0 ==> {
                &&& e.generation() == 0
                &&& final(self).generations() == old(self).generations().push(0)
                &&& final(self).free_slots() == old(self).free_slots()
            },
            final(self).holds(e),
            !old(self).holds(e),
            !old(self).slot_in_use(e.index() as int),
            forall|x: Entity| #[trigger] final(self).holds(x) <==> (old(self).holds(x) || x == e),
            forall|i: int|
                #[trigger] final(self).slot_in_use(i) <==> (old(self).slot_in_use(i) || i
                    == e.index()),
            final(self).generations().len() >= old(self).generations().len(),
            forall|i: int|
                0 <= i < old(self).generations().len() ==> #[trigger] final(self).generations()[i]
                    == old(self).generations()[i],
    {
        if let Some(index) = self.free_list.pop() {
            proof {
                assert(old(self).free_list@.last() == index);
                assert(forall|i: int|
                    0 <= i < self.free_list@.len() ==> self.free_list@[i] == old(
                        self,
                    ).free_list@[i]);
                assert(!self.free_list@.contains(index)) by {
                    if self.free_list@.contains(index) {
                        let k = choose|k: int|
                            0 <= k < self.free_list@.len() && self.free_list@[k] == index;
                        assert(old(self).free_list@[k] == old(self).free_list@[old(
                            self,
                        ).free_list@.len() - 1]);
                    }
                }
            }
            let generation = self.generations[index as usize];
            Entity { index, generation }
        } else {
            let index = self.len;
            self.len = self.len + 1;
            self.generations.push(0);
            proof {
                assert(!self.free_list@.contains(index)) by {
                    if self.free_list@.contains(index) {
                        let k = choose|k: int|
                            0 <= k < self.free_list@.len() && self.free_list@[k] == index;
                    }
                }
            }
            Entity { index, generation: 0 }
        }
    }

    /// Free a handle's slot. Returns `true` if the handle was alive; its
    /// slot's generation is then bumped and the slot queued for reuse.
    /// Returns `false` for a stale handle and changes nothing.
    pub fn deallocate(&mut self, entity: Entity) -> (r: bool)
        requires
            old(self).wf(),
            old(self).handle_alive(entity) ==> !old(self).free_slots().contains(entity.index()),
            old(self).handle_alive(entity) ==> old(self).generations()[entity.index() as int]
                < u32::MAX,
        ensures
            final(self).wf(),
            r == old(self).handle_alive(entity),
            r ==> final(self).generations() == old(self).generations().update(
                entity.index() as int,
                (entity.generation() + 1) as u32,
            ),
            r ==> final(self).free_slots() == old(self).free_slots().push(entity.index()),
            !r ==> *final(self) == *old(self),
            r ==> forall|x: Entity| #[trigger]
                final(self).holds(x) <==> (old(self).holds(x) && x != entity),
            r ==> forall|i: int| #[trigger]
                final(self).slot_in_use(i) <==> (old(self).slot_in_use(i) && i != entity.index()),
    {
        let idx = entity.index as usize;
        if idx < self.generations.len() && self.generations[idx] == entity.generation {
            let g = self.generations[idx];
            self.generations.set(idx, g + 1);
            self.free_list.push(entity.index);
            proof {
                assert forall|i: int, j: int|
                    0 <= i < self.free_list@.len() && 0 <= j < self.free_list@.len() && i
                        != j implies self.free_list@[i] != self.free_list@[j] by {
                    if i < old(self).free_list@.len() && j < old(self).free_list@.len() {
                    } else if i < old(self).free_list@.len() {
                        assert(old(self).free_list@.contains(self.free_list@[i]));
                    } else {
                        assert(old(self).free_list@.contains(self.free_list@[j]));
                    }
                }
                assert forall|j: u32| #[trigger]
                    self.free_list@.contains(j) <==> (old(self).free_list@.contains(j) || j
                        == entity.index) by {
                    vstd::seq_lib::lemma_seq_contains_after_push(old(self).free_list@, entity.index, j);
                }
                assert forall|x: Entity| #[trigger]
                    self.holds(x) <==> (old(self).holds(x) && x != entity) by {
                    x.lemma_eq(entity);
                    assert(self.free_list@.contains(x.index) <==> (old(self).free_list@.contains(
                        x.index,
                    ) || x.index == entity.index));
                }
                assert forall|i: int| #[trigger]
                    self.slot_in_use(i) <==> (old(self).slot_in_use(i) && i != entity.index()) by {
                    if 0 <= i < self.generations@.len() {
                        assert(self.free_list@.contains(i as u32) <==> (old(
                            self,
                        ).free_list@.contains(i as u32) || i as u32 == entity.index));
                    }
                }
            }
            true
        } else {
            false
        }
    }

    /// Whether a handle is still valid: its slot exists and the generation
    /// matches.
    pub fn is_alive(&self, entity: Entity) -> (r: bool)
        ensures
            r == self.handle_alive(entity),
    {
        let idx = entity.index as usize;
        idx < self.generations.len() && self.generations[idx] == entity.generation
    }

    /// Number of live entities: slots created minus slots waiting for reuse.
    pub fn alive_count(&self) -> (r: usize)
        requires
            self.wf(),
        ensures
            r == self.spec_alive_count(),
    {
        proof {
            self.lemma_wf_bounds();
        }
        (self.len as usize) - self.free_list.len()
    }

    /// Number of slots waiting for reuse.
    pub fn free_count(&self) -> (r: usize)
        ensures
            r == self.free_slots().len(),
    {
        self.free_list.len()
    }

    /// Number of slots ever created.
    pub fn total_slots(&self) -> (r: u32)
        requires
            self.wf(),
        ensures
            r == self.generations().len(),
    {
        self.len
    }
}

/// A freed handle stays stale: once `e` is freed (`a0` to `a1`) it is no
/// longer alive, and when its slot is handed out again (`a1` to `a2`) the
/// new handle has the same index and the next generation, so it differs
/// from `e`, is held, and `e` is still not alive.
pub proof fn law_freed_handle_stays_stale(
    a0: EntityAllocator,
    a1: EntityAllocator,
    a2: EntityAllocator,
    e: Entity,
    e2: Entity,
)
    requires
        a0.wf(),
        a0.holds(e),
        a0.generations()[e.index() as int] < u32::MAX,
        a1.generations() == a0.generations().update(e.index() as int, (e.generation() + 1) as u32),
        a1.free_slots() == a0.free_slots().push(e.index()),
        e2.index() == a1.next_handle_index(),
        e2.generation() == a1.generations()[e2.index() as int],
        a2.generations() == a1.generations(),
        a2.free_slots() == a1.free_slots().drop_last(),
    ensures
        !a1.handle_alive(e),
        e2.index() == e.index(),
        e2.generation() == e.generation() + 1,
        e2 != e,
        !a2.handle_alive(e),
        a2.holds(e2),
{
    assert(a2.free_slots() =~= a0.free_slots());
    e2.lemma_eq(e);
}

} // verus!
