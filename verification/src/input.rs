//! Keyboard and mouse button state: what is held, what went down this
//! frame and what came up this frame.
use std::collections::HashSet;
use std::hash::Hash;

use vstd::prelude::*;
use vstd::std_specs::hash::obeys_key_model;

verus! {

broadcast use vstd::std_specs::hash::group_hash_axioms;

/// Tracks a set of inputs (keys or mouse buttons).
///
/// - `pressed`: currently held down
/// - `just_pressed`: went down this frame
/// - `just_released`: came up this frame
pub struct Input<T: Eq + Hash + Copy> {
    pressed: HashSet<T>,
    just_pressed: HashSet<T>,
    just_released: HashSet<T>,
}

impl<T: Eq + Hash + Copy> Input<T> {
    /// The inputs follow the hashing model that the sets rely on.
    pub closed spec fn wf(&self) -> bool {
        obeys_key_model::<T>()
    }

    /// Inputs currently held down.
    pub closed spec fn held(&self) -> Set<T> {
        self.pressed@
    }

    /// Inputs that went down this frame.
    pub closed spec fn went_down(&self) -> Set<T> {
        self.just_pressed@
    }

    /// Inputs that came up this frame.
    pub closed spec fn came_up(&self) -> Set<T> {
        self.just_released@
    }

    /// Nothing held, nothing happened this frame.
    pub fn new() -> (r: Self)
        requires
            obeys_key_model::<T>(),
        ensures
            r.wf(),
            r.held() == Set::<T>::empty(),
            r.went_down() == Set::<T>::empty(),
            r.came_up() == Set::<T>::empty(),
    {
        Input { pressed: HashSet::new(), just_pressed: HashSet::new(), just_released: HashSet::new() }
    }

    /// Whether the input is held down.
    pub fn pressed(&self, input: T) -> (r: bool)
        requires
            self.wf(),
        ensures
            r == self.held().contains(input),
    {
        self.pressed.contains(&input)
    }

    /// Whether the input went down this frame.
    pub fn just_pressed(&self, input: T) -> (r: bool)
        requires
            self.wf(),
        ensures
            r == self.went_down().contains(input),
    {
        self.just_pressed.contains(&input)
    }

    /// Whether the input came up this frame.
    pub fn just_released(&self, input: T) -> (r: bool)
        requires
            self.wf(),
        ensures
            r == self.came_up().contains(input),
    {
        self.just_released.contains(&input)
    }

    /// The input went down. It counts as just pressed only if it was not
    /// already held.
    pub fn press(&mut self, input: T)
        requires
            old(self).wf(),
        ensures
            final(self).wf(),
            final(self).held() == old(self).held().insert(input),
            final(self).went_down() == if old(self).held().contains(input) {
                old(self).went_down()
            } else {
                old(self).went_down().insert(input)
            },
            final(self).came_up() == old(self).came_up(),
            old(self).held().contains(input) ==> final(self).held() == old(self).held(),
    {
        if self.pressed.insert(input) {
            self.just_pressed.insert(input);
        }
    }

    /// The input came up. It counts as just released only if it was held.
    pub fn release(&mut self, input: T)
        requires
            old(self).wf(),
        ensures
            final(self).wf(),
            final(self).held() == old(self).held().remove(input),
            final(self).came_up() == if old(self).held().contains(input) {
                old(self).came_up().insert(input)
            } else {
                old(self).came_up()
            },
            final(self).went_down() == old(self).went_down(),
            !old(self).held().contains(input) ==> final(self).held() == old(self).held(),
    {
        if self.pressed.remove(&input) {
            self.just_released.insert(input);
        }
    }

    /// Start a new frame: forget what went down or came up, keep what is
    /// held.
    pub fn clear_just(&mut self)
        requires
            old(self).wf(),
        ensures
            final(self).wf(),
            final(self).held() == old(self).held(),
            final(self).went_down() == Set::<T>::empty(),
            final(self).came_up() == Set::<T>::empty(),
    {
        self.just_pressed.clear();
        self.just_released.clear();
    }
}

} // verus!
