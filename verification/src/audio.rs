//! The audio system's decisions, and its errors.
//!
//! Each run, the audio system starts the sources set to play by themselves
//! that have no sound playing yet, then releases the handles of sounds that
//! have stopped. Playing and polling sounds is the audio backend's work; the
//! functions here decide which entities it concerns.
use vstd::prelude::*;

use crate::entity::Entity;
use crate::names::push_char;

verus! {

/// Errors that can occur in the audio system.
pub enum AudioError {
    /// Failed to initialize the audio backend.
    BackendInit(String),
    /// Failed to load a sound file.
    Load(String),
    /// Failed to play a sound.
    Play(String),
}

/// Appends the characters of `t` to `s`.
fn append_str(s: &mut String, t: &str)
    ensures
        final(s)@ == old(s)@ + t@,
{
    let v = crate::names::chars_of(t);
    let mut i: usize = 0;
    while i < v.len()
        invariant
            i <= v@.len(),
            v@ == t@,
            s@ == old(s)@ + v@.take(i as int),
        decreases v@.len() - i,
    {
        push_char(s, v[i]);
        i = i + 1;
        assert(s@ =~= old(s)@ + v@.take(i as int));
    }
    assert(v@.take(i as int) =~= v@);
}

impl AudioError {
    /// The message shown for the error.
    pub open spec fn spec_message(&self) -> Seq<char> {
        match self {
            AudioError::BackendInit(e) => "audio backend init failed: "@ + e@,
            AudioError::Load(e) => "audio load failed: "@ + e@,
            AudioError::Play(e) => "audio play failed: "@ + e@,
        }
    }

    /// The message shown for the error.
    pub fn message(&self) -> (r: String)
        ensures
            r@ == self.spec_message(),
    {
        let mut r = String::new();
        match self {
            AudioError::BackendInit(e) => {
                append_str(&mut r, "audio backend init failed: ");
                append_str(&mut r, e.as_str());
            },
            AudioError::Load(e) => {
                append_str(&mut r, "audio load failed: ");
                append_str(&mut r, e.as_str());
            },
            AudioError::Play(e) => {
                append_str(&mut r, "audio play failed: ");
                append_str(&mut r, e.as_str());
            },
        }
        proof {
            assert(Seq::<char>::empty() + "audio backend init failed: "@ =~= "audio backend init failed: "@);
            assert(Seq::<char>::empty() + "audio load failed: "@ =~= "audio load failed: "@);
            assert(Seq::<char>::empty() + "audio play failed: "@ =~= "audio play failed: "@);
        }
        r
    }
}

/// What the audio system reads of one entity's audio source.
#[derive(Clone, Copy)]
pub struct SourceStatus {
    pub entity: Entity,
    /// The source starts playing by itself when first seen.
    pub auto_play: bool,
    /// A sound of this source was started and its handle is kept.
    pub has_handle: bool,
    /// The kept sound has finished or was stopped.
    pub stopped: bool,
}

/// Entities of the sources that start now, in the order given.
pub open spec fn sources_to_start(s: Seq<SourceStatus>) -> Seq<Entity>
    decreases s.len(),
{
    if s.len() == 0 {
        Seq::empty()
    } else {
        let rest = sources_to_start(s.drop_last());
        if s.last().auto_play && !s.last().has_handle {
            rest.push(s.last().entity)
        } else {
            rest
        }
    }
}

/// Entities whose stopped sound handle is released, in the order given.
pub open spec fn handles_to_release(s: Seq<SourceStatus>) -> Seq<Entity>
    decreases s.len(),
{
    if s.len() == 0 {
        Seq::empty()
    } else {
        let rest = handles_to_release(s.drop_last());
        if s.last().has_handle && s.last().stopped {
            rest.push(s.last().entity)
        } else {
            rest
        }
    }
}

/// One run of the audio system's start step: the sources set to play by
/// themselves that have no sound playing yet, in the order given.
pub fn audio_system(sources: &Vec<SourceStatus>) -> (r: Vec<Entity>)
    ensures
        r@ == sources_to_start(sources@),
{
    let mut r: Vec<Entity> = Vec::new();
    let mut i: usize = 0;
    while i < sources.len()
        invariant
            i <= sources@.len(),
            r@ == sources_to_start(sources@.take(i as int)),
        decreases sources@.len() - i,
    {
        let s = sources[i];
        proof {
            assert(sources@.take(i + 1).drop_last() =~= sources@.take(i as int));
        }
        if s.auto_play && !s.has_handle {
            r.push(s.entity);
        }
        i = i + 1;
    }
    assert(sources@.take(i as int) =~= sources@);
    r
}

/// The release step: the entities whose sound handle is kept and whose
/// sound has stopped, in the order given.
pub fn stopped_sources(sources: &Vec<SourceStatus>) -> (r: Vec<Entity>)
    ensures
        r@ == handles_to_release(sources@),
{
    let mut r: Vec<Entity> = Vec::new();
    let mut i: usize = 0;
    while i < sources.len()
        invariant
            i <= sources@.len(),
            r@ == handles_to_release(sources@.take(i as int)),
        decreases sources@.len() - i,
    {
        let s = sources[i];
        proof {
            assert(sources@.take(i + 1).drop_last() =~= sources@.take(i as int));
        }
        if s.has_handle && s.stopped {
            r.push(s.entity);
        }
        i = i + 1;
    }
    assert(sources@.take(i as int) =~= sources@);
    r
}

} // verus!
