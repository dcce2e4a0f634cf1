//! dreki: a small game engine around an archetype-based entity component
//! system with generational entity handles, global resources, names, tags
//! and parent/child hierarchies.
//!
//! Besides the world (`world`, `entity`, `archetype`, `hierarchy`,
//! `system`), the library holds the engine's logic that does not depend on
//! floating point or I/O: input state (`input`), sprite-sheet frame
//! bookkeeping (`animation`), draw batching (`batch`), mesh indices
//! (`mesh`), font atlases (`font`), textures (`texture`), hot-reload
//! debouncing (`asset`), window-loop decisions (`window`), diagnostics
//! (`diag`, `names`, `debug_text`) and the telemetry dashboard's state
//! (`telemetry`, `dashboard`).
use vstd::prelude::*;

pub mod animation;
pub mod archetype;
pub mod asset;
pub mod audio;
pub mod batch;
pub mod dashboard;
pub mod debug_text;
pub mod diag;
pub mod entity;
pub mod font;
pub mod hierarchy;
pub mod input;
pub mod mesh;
pub mod names;
pub mod system;
pub mod table;
pub mod telemetry;
pub mod texture;
pub mod window;
pub mod world;

verus! {

} // verus!
