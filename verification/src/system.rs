//! Systems: work that runs on the world once per frame.
use vstd::prelude::*;

use crate::world::World;

verus! {

/// A system that can be executed on a [`World`].
pub trait System<V> {
    fn run(&mut self, world: &mut World<V>);
}

} // verus!
