//! A retained-mode UI runtime: a virtual node model, a reconciler that turns
//! successive node lists into a minimal list of live-output mutations, and the
//! component-instance machinery (commands, lazy lifecycle queue, prefabs).
use vstd::prelude::*;

pub mod arena;
pub mod audio;
pub mod cmd;
pub mod instance;
pub mod patch;
pub mod prefab;
pub mod registry;
pub mod renderer;
pub mod vnode;

verus! {

} // verus!
