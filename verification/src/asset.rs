//! Hot reloading of assets: which files are watched and for what, and the
//! debouncing of change notices, so that a burst of writes to one file
//! gives a single reload once the file has been quiet for a while.
//!
//! Times are microseconds on a clock that only moves forward; the file
//! watcher and the clock belong to the caller.
use vstd::prelude::*;

use crate::batch::TextureHandle;
use crate::table::{
    KeyEntry,
    KeyTable,
    TableKey,
    entries_view,
    entries_wf,
    lemma_entries_view_at,
    lemma_entries_view_has,
};

verus! {

/// Handle to a loaded texture in the 3D texture store.
#[derive(Clone, Copy, Debug, PartialEq, Eq, Hash, Structural)]
pub struct TextureHandle3d(pub usize);

/// What a watched file is, and so what to reload when it changes.
#[derive(Clone, Copy, Debug, PartialEq, Eq, Structural)]
pub enum AssetKind {
    /// A 2D texture at a specific handle.
    Texture2d(TextureHandle),
    /// A 3D texture at a specific handle.
    Texture3d(TextureHandle3d),
    /// The 2D sprite shader.
    Shader2d,
    /// The 3D shader.
    Shader3d,
}

impl AssetKind {
    /// The name of the kind shown in diagnostics.
    pub open spec fn spec_label(&self) -> Seq<char> {
        match self {
            AssetKind::Texture2d(_) => "Texture2d"@,
            AssetKind::Texture3d(_) => "Texture3d"@,
            AssetKind::Shader2d => "Shader2d"@,
            AssetKind::Shader3d => "Shader3d"@,
        }
    }

    /// The name of the kind shown in diagnostics.
    pub fn label(&self) -> (r: &'static str)
        ensures
            r@ == self.spec_label(),
    {
        match self {
            AssetKind::Texture2d(_) => "Texture2d",
            AssetKind::Texture3d(_) => "Texture3d",
            AssetKind::Shader2d => "Shader2d",
            AssetKind::Shader3d => "Shader3d",
        }
    }
}

/// How long a file must stay unchanged before it is reloaded, in
/// microseconds.
pub const RELOAD_DEBOUNCE_US: u64 = 100_000;

/// A change seen at `changed_at` has settled by `now`.
pub open spec fn settled(changed_at: u64, now: u64) -> bool {
    now >= changed_at + RELOAD_DEBOUNCE_US
}

/// Whether a change seen at `changed_at` has settled by `now`.
pub fn has_settled(changed_at: u64, now: u64) -> (r: bool)
    ensures
        r == settled(changed_at, now),
{
    now >= changed_at && now - changed_at >= RELOAD_DEBOUNCE_US
}

/// The pending reloads of `m` that have not settled by `now`.
pub open spec fn unsettled(m: Map<Seq<char>, (AssetKind, u64)>, now: u64) -> Map<Seq<char>, (AssetKind, u64)> {
    Map::new(|k: Seq<char>| m.contains_key(k) && !settled(m[k].1, now), |k: Seq<char>| m[k])
}

/// The watched files and the reloads waiting for their file to settle.
pub struct HotReload {
    watched: KeyTable<String, AssetKind>,
    pending: KeyTable<String, (AssetKind, u64)>,
}

impl HotReload {
    pub closed spec fn wf(&self) -> bool {
        self.watched.wf() && self.pending.wf()
    }

    /// Each watched file's path and kind.
    pub closed spec fn watched(&self) -> Map<Seq<char>, AssetKind> {
        self.watched.view()
    }

    /// Each file waiting to settle: its kind and when it last changed.
    pub closed spec fn pending(&self) -> Map<Seq<char>, (AssetKind, u64)> {
        self.pending.view()
    }

    /// Nothing watched, nothing pending.
    pub fn new() -> (r: Self)
        ensures
            r.wf(),
            r.watched() == Map::<Seq<char>, AssetKind>::empty(),
            r.pending() == Map::<Seq<char>, (AssetKind, u64)>::empty(),
    {
        HotReload { watched: KeyTable::new(), pending: KeyTable::new() }
    }

    /// Watches `path` as an asset of kind `kind`, replacing an earlier kind.
    pub fn watch(&mut self, path: String, kind: AssetKind)
        requires
            old(self).wf(),
        ensures
            final(self).wf(),
            final(self).watched() == old(self).watched().insert(path@, kind),
            final(self).pending() == old(self).pending(),
    {
        self.watched.insert(path, kind);
    }

    /// Notes that the file at `path` was modified or created at `now`. A
    /// watched file (re)starts waiting to settle; others are ignored.
    pub fn file_changed(&mut self, path: &String, now: u64)
        requires
            old(self).wf(),
        ensures
            final(self).wf(),
            final(self).watched() == old(self).watched(),
            final(self).pending() == if old(self).watched().contains_key(path@) {
                old(self).pending().insert(path@, (old(self).watched()[path@], now))
            } else {
                old(self).pending()
            },
    {
        match self.watched.get(path) {
            Some(kind) => {
                let k = *kind;
                let p = path.clone();
                self.pending.insert(p, (k, now));
            },
            None => {},
        }
    }

    /// Takes out the reloads whose file has settled by `now`, each once,
    /// with its kind; the others keep waiting.
    pub fn drain_ready(&mut self, now: u64) -> (r: Vec<(String, AssetKind)>)
        requires
            old(self).wf(),
        ensures
            final(self).wf(),
            final(self).watched() == old(self).watched(),
            final(self).pending() == unsettled(old(self).pending(), now),
            forall|i: int|
                0 <= i < r@.len() ==> {
                    &&& old(self).pending().contains_key(#[trigger] r@[i].0@)
                    &&& old(self).pending()[r@[i].0@].0 == r@[i].1
                    &&& settled(old(self).pending()[r@[i].0@].1, now)
                },
            forall|k: Seq<char>|
                old(self).pending().contains_key(k) && settled(#[trigger] old(self).pending()[k].1, now)
                    ==> exists|i: int| 0 <= i < r@.len() && r@[i].0@ == k,
            forall|i: int, j: int| 0 <= i < j < r@.len() ==> r@[i].0@ != r@[j].0@,
    {
        let ghost oldp = self.pending.view();
        proof {
            self.pending.lemma_entries();
        }
        let mut taken: KeyTable<String, (AssetKind, u64)> = KeyTable::new();
        std::mem::swap(&mut self.pending, &mut taken);
        let es = taken.into_entries();
        let mut keep: KeyTable<String, (AssetKind, u64)> = KeyTable::new();
        let mut out: Vec<(String, AssetKind)> = Vec::new();
        let ghost mut src: Seq<int> = Seq::empty();
        let mut i: usize = 0;
        while i < es.len()
            invariant
                i <= es@.len(),
                entries_wf(es@),
                entries_view(es@) == oldp,
                keep.wf(),
                forall|k: Seq<char>|
                    #[trigger] keep.view().contains_key(k) <==> exists|j: int|
                        0 <= j < i && es@[j].key@ == k && !settled(es@[j].value.1, now),
                forall|j: int|
                    0 <= j < i && !settled(es@[j].value.1, now) ==> #[trigger] keep.view()[es@[j].key@]
                        == es@[j].value,
                out@.len() == src.len(),
                forall|m: int|
                    0 <= m < src.len() ==> {
                        &&& 0 <= #[trigger] src[m] < i
                        &&& out@[m].0@ == es@[src[m]].key@
                        &&& out@[m].1 == es@[src[m]].value.0
                        &&& settled(es@[src[m]].value.1, now)
                    },
                forall|a: int, b: int| 0 <= a < b < src.len() ==> src[a] < src[b],
                forall|j: int|
                    0 <= j < i && settled(#[trigger] es@[j].value.1, now) ==> exists|m: int|
                        0 <= m < src.len() && src[m] == j,
            decreases es@.len() - i,
        {
            let e = &es[i];
            let (kind, changed_at) = e.value;
            if has_settled(changed_at, now) {
                out.push((e.key.clone(), kind));
                proof {
                    let old_src = src;
                    src = src.push(i as int);
                    assert forall|j: int|
                        0 <= j < i + 1 && settled(#[trigger] es@[j].value.1, now) implies exists|m: int|
                            0 <= m < src.len() && src[m] == j by {
                        if j < i {
                            let m = choose|m: int| 0 <= m < old_src.len() && old_src[m] == j;
                            assert(src[m] == j);
                        } else {
                            assert(src[old_src.len() as int] == j);
                        }
                    }
                    assert forall|k: Seq<char>| #[trigger] keep.view().contains_key(k) <==> exists|j: int|
                        0 <= j < i + 1 && es@[j].key@ == k && !settled(es@[j].value.1, now) by {
                        if exists|j: int| 0 <= j < i + 1 && es@[j].key@ == k && !settled(es@[j].value.1, now) {
                            let j = choose|j: int| 0 <= j < i + 1 && es@[j].key@ == k && !settled(es@[j].value.1, now);
                            assert(j != i);
                        }
                    }
                }
            } else {
                proof {
                    if keep.view().contains_key(e.key@) {
                        let j = choose|j: int| 0 <= j < i && es@[j].key@ == e.key@ && !settled(es@[j].value.1, now);
                        assert(es@[j].key.key_view() != es@[i as int].key.key_view());
                    }
                }
                keep.insert(e.key.clone(), (kind, changed_at));
                proof {
                    assert forall|k: Seq<char>| #[trigger] keep.view().contains_key(k) <==> exists|j: int|
                        0 <= j < i + 1 && es@[j].key@ == k && !settled(es@[j].value.1, now) by {
                        if k == es@[i as int].key@ {
                            assert(es@[i as int].key@ == k && !settled(es@[i as int].value.1, now));
                        }
                    }
                    assert forall|j: int|
                        0 <= j < i + 1 && !settled(es@[j].value.1, now) implies #[trigger] keep.view()[es@[j].key@]
                            == es@[j].value by {
                        if j < i {
                            assert(es@[j].key.key_view() != es@[i as int].key.key_view());
                        }
                    }
                }
            }
            i = i + 1;
        }
        self.pending = keep;
        proof {
            assert forall|k: Seq<char>| #[trigger] self.pending.view().contains_key(k) == unsettled(oldp, now).contains_key(k) by {
                if oldp.contains_key(k) {
                    let j = lemma_entries_view_has(es@, k);
                }
                if self.pending.view().contains_key(k) {
                    let j = choose|j: int| 0 <= j < i && es@[j].key@ == k && !settled(es@[j].value.1, now);
                    lemma_entries_view_at(es@, j);
                }
            }
            assert forall|k: Seq<char>| #[trigger] self.pending.view().contains_key(k) implies self.pending.view()[k]
                == unsettled(oldp, now)[k] by {
                let j = choose|j: int| 0 <= j < i && es@[j].key@ == k && !settled(es@[j].value.1, now);
                lemma_entries_view_at(es@, j);
            }
            assert(self.pending.view() =~= unsettled(oldp, now));
            assert forall|m: int| 0 <= m < out@.len() implies {
                &&& oldp.contains_key(#[trigger] out@[m].0@)
                &&& oldp[out@[m].0@].0 == out@[m].1
                &&& settled(oldp[out@[m].0@].1, now)
            } by {
                lemma_entries_view_at(es@, src[m]);
            }
            assert forall|k: Seq<char>| oldp.contains_key(k) && settled(#[trigger] oldp[k].1, now) implies exists|m: int|
                0 <= m < out@.len() && out@[m].0@ == k by {
                let j = lemma_entries_view_has(es@, k);
                assert(settled(es@[j].value.1, now));
                let m = choose|m: int| 0 <= m < src.len() && src[m] == j;
                assert(out@[m].0@ == k);
            }
            assert forall|a: int, b: int| 0 <= a < b < out@.len() implies out@[a].0@ != out@[b].0@ by {
                assert(src[a] < src[b]);
                assert(es@[src[a]].key.key_view() != es@[src[b]].key.key_view());
            }
        }
        out
    }

    /// Number of watched files.
    pub fn watched_count(&self) -> (r: usize)
        requires
            self.wf(),
        ensures
            r == self.watched().dom().len(),
    {
        self.watched.len()
    }

    /// Number of reloads waiting for their file to settle.
    pub fn pending_count(&self) -> (r: usize)
        requires
            self.wf(),
        ensures
            r == self.pending().dom().len(),
    {
        self.pending.len()
    }

    /// Every watched file with its kind, each once.
    pub fn watched_files(&self) -> (r: Vec<(String, AssetKind)>)
        requires
            self.wf(),
        ensures
            r@.len() == self.watched().dom().len(),
            forall|i: int|
                0 <= i < r@.len() ==> self.watched().contains_key(#[trigger] r@[i].0@) && self.watched()[r@[i].0@]
                    == r@[i].1,
            forall|k: Seq<char>|
                #[trigger] self.watched().contains_key(k) ==> exists|i: int| 0 <= i < r@.len() && r@[i].0@ == k,
            forall|i: int, j: int| 0 <= i < j < r@.len() ==> r@[i].0@ != r@[j].0@,
    {
        proof {
            self.watched.lemma_entries();
        }
        let n = self.watched.len();
        let mut r: Vec<(String, AssetKind)> = Vec::new();
        let mut i: usize = 0;
        while i < n
            invariant
                n == self.watched.entries().len(),
                i <= n,
                entries_wf(self.watched.entries()),
                entries_view(self.watched.entries()) == self.watched.view(),
                r@.len() == i,
                forall|j: int|
                    0 <= j < i ==> (#[trigger] r@[j]).0@ == self.watched.entries()[j].key@ && r@[j].1
                        == self.watched.entries()[j].value,
            decreases n - i,
        {
            let e = self.watched.entry(i);
            r.push((e.key.clone(), e.value));
            i = i + 1;
        }
        proof {
            let es = self.watched.entries();
            assert forall|j: int| 0 <= j < r@.len() implies self.watched().contains_key(#[trigger] r@[j].0@)
                && self.watched()[r@[j].0@] == r@[j].1 by {
                lemma_entries_view_at(es, j);
            }
            assert forall|k: Seq<char>| #[trigger] self.watched().contains_key(k) implies exists|j: int|
                0 <= j < r@.len() && r@[j].0@ == k by {
                let j = lemma_entries_view_has(es, k);
                assert(r@[j].0@ == k);
            }
            assert forall|a: int, b: int| 0 <= a < b < r@.len() implies r@[a].0@ != r@[b].0@ by {
                assert(r@[a].0@ == es[a].key@);
                assert(r@[b].0@ == es[b].key@);
            }
        }
        r
    }
}

/// Changes to a file collapse into one reload: after a watched file of kind
/// `kind` changes at `t1` and again at `t2`, the queue holds it once, timed
/// from `t2`; a drain at `now` leaves it waiting exactly when `now` is
/// less than the debounce time after `t2`, and otherwise takes it out.
pub proof fn law_changes_collapse(
    pending: Map<Seq<char>, (AssetKind, u64)>,
    path: Seq<char>,
    kind: AssetKind,
    t1: u64,
    t2: u64,
    now: u64,
)
    ensures
        ({
            let after = pending.insert(path, (kind, t1)).insert(path, (kind, t2));
            &&& after == pending.insert(path, (kind, t2))
            &&& unsettled(after, now).contains_key(path) <==> now < t2 + RELOAD_DEBOUNCE_US
            &&& settled(after[path].1, now) <==> now >= t2 + RELOAD_DEBOUNCE_US
        }),
{
    assert(pending.insert(path, (kind, t1)).insert(path, (kind, t2)) =~= pending.insert(path, (kind, t2)));
}

} // verus!
