//! Parent/child links between entities.
use vstd::prelude::*;

use crate::entity::Entity;

verus! {

/// Marks an entity as a child of another entity.
#[derive(Clone, Copy, Debug, PartialEq, Eq, Structural)]
pub struct Parent(pub Entity);

/// The children of an entity, in the order they were spawned under it.
#[derive(Clone, Debug)]
pub struct Children(pub Vec<Entity>);

} // verus!
