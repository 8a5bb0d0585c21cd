//! Per-application GPU selection on Linux: GPU enumeration, classification
//! of how each installed application is launched, synthesis of the
//! environment that puts rendering on a chosen GPU, and the patchers that
//! write that environment into Steam's `localconfig.vdf`, Heroic's per-game
//! JSON, native `.desktop` launchers and Flatpak overrides. Each patcher
//! owns a marker-delimited region of the foreign file and keeps it
//! idempotent and removable.
use vstd::prelude::*;

pub mod error;
pub mod models;
pub mod text;
pub mod vdf;
pub mod steam;
pub mod launcher;
pub mod desktop;
pub mod gpu;
pub mod updates;
pub mod heroic;
pub mod display;

verus! {

} // verus!
