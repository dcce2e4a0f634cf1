//! Snapshots of the entity store for the diagnostics dashboard.
use vstd::prelude::*;

use crate::archetype::TypeKey;

verus! {

/// One entity of an expanded archetype.
pub struct EntitySnapshot<'a, V> {
    pub id: u32,
    pub generation: u32,
    /// The entity's components, by kind, in the order of the archetype's
    /// kinds.
    pub components: Vec<(TypeKey, &'a V)>,
    /// Parent's slot index, for an entity spawned as a child.
    pub parent_id: Option<u32>,
    /// Length of the entity's children list (0 when it has none).
    pub child_count: u32,
}

/// One non-empty archetype.
pub struct ArchetypeSnapshot<'a, V> {
    /// Position of the archetype in the world's archetype list.
    pub archetype: usize,
    pub entity_count: usize,
    /// The archetype's component kinds, in increasing order.
    pub kinds: Vec<TypeKey>,
    /// The entities, in row order, when the archetype is expanded.
    pub entities: Option<Vec<EntitySnapshot<'a, V>>>,
}

/// Slot usage of the entity allocator, and the entities spawned and
/// despawned since the last time these were taken.
pub struct EntityPoolStats {
    pub total_slots: u32,
    pub free_count: usize,
    pub alive_count: usize,
    pub spawned_this_tick: u32,
    pub despawned_this_tick: u32,
}

/// Draw calls and uploads of the last frame.
pub struct RenderStats {
    pub draw_calls: u32,
    pub vertices: u32,
    pub textures_loaded: u32,
}

impl RenderStats {
    /// All counts zero.
    pub fn new() -> (r: Self)
        ensures
            r.draw_calls == 0,
            r.vertices == 0,
            r.textures_loaded == 0,
    {
        RenderStats { draw_calls: 0, vertices: 0, textures_loaded: 0 }
    }
}

/// Most log messages a [`LogRing`] keeps; the oldest leaves first.
pub const LOG_RING_CAP: usize = 500;

/// Most log messages sent with one diagnostics snapshot.
pub const LOGS_PER_SNAPSHOT: usize = 50;

/// Shortest time between two diagnostics snapshots, in milliseconds.
pub const SEND_INTERVAL_MS: u64 = 100;

/// Whether a diagnostics snapshot is due, `elapsed_ms` after the last one.
pub fn send_due(elapsed_ms: u64) -> (r: bool)
    ensures
        r == (elapsed_ms >= SEND_INTERVAL_MS),
{
    elapsed_ms >= SEND_INTERVAL_MS
}

/// Captured log messages waiting to be sent, oldest first, at most
/// [`LOG_RING_CAP`] of them.
pub struct LogRing<T> {
    entries: Vec<T>,
}

impl<T> View for LogRing<T> {
    type V = Seq<T>;

    closed spec fn view(&self) -> Seq<T> {
        self.entries@
    }
}

impl<T> LogRing<T> {
    /// The ring holds no more than its capacity.
    pub open spec fn wf(&self) -> bool {
        self@.len() <= LOG_RING_CAP
    }

    /// An empty ring.
    pub fn new() -> (r: Self)
        ensures
            r@ == Seq::<T>::empty(),
            r.wf(),
    {
        LogRing { entries: Vec::new() }
    }

    /// Appends a message; when the ring is full the oldest one is dropped.
    pub fn push(&mut self, entry: T)
        ensures
            final(self)@ == if old(self)@.len() >= LOG_RING_CAP {
                old(self)@.drop_first().push(entry)
            } else {
                old(self)@.push(entry)
            },
            old(self).wf() ==> final(self).wf(),
    {
        if self.entries.len() >= LOG_RING_CAP {
            self.entries.remove(0);
        }
        self.entries.push(entry);
    }

    /// Takes out up to `max` of the oldest messages, oldest first.
    pub fn drain(&mut self, max: usize) -> (r: Vec<T>)
        ensures
            ({
                let n: int = if old(self)@.len() < max { old(self)@.len() as int } else { max as int };
                &&& r@ == old(self)@.take(n)
                &&& final(self)@ == old(self)@.skip(n)
            }),
            old(self).wf() ==> final(self).wf(),
    {
        let n = if self.entries.len() < max {
            self.entries.len()
        } else {
            max
        };
        let mut taken = self.entries.split_off(n);
        std::mem::swap(&mut self.entries, &mut taken);
        taken
    }

    /// Number of waiting messages.
    pub fn len(&self) -> (r: usize)
        ensures
            r == self@.len(),
    {
        self.entries.len()
    }
}

/// A full ring keeps the newest [`LOG_RING_CAP`] messages: pushing onto a
/// ring that holds at most its capacity leaves the last `LOG_RING_CAP`
/// messages of everything pushed, in order.
pub proof fn law_log_ring_keeps_newest<T>(before: Seq<T>, entry: T)
    requires
        before.len() <= LOG_RING_CAP,
    ensures
        ({
            let after = if before.len() >= LOG_RING_CAP {
                before.drop_first().push(entry)
            } else {
                before.push(entry)
            };
            let all = before.push(entry);
            &&& after.len() <= LOG_RING_CAP
            &&& after == if all.len() > LOG_RING_CAP { all.skip(all.len() - LOG_RING_CAP) } else { all }
        }),
{
    let all = before.push(entry);
    if before.len() >= LOG_RING_CAP {
        assert(before.drop_first().push(entry) =~= all.skip(all.len() - LOG_RING_CAP));
    }
}

} // verus!
