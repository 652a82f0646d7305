//! Read-only overlay mounting over a mount namespace: the mount tree that is
//! rebuilt from the flat mount table, the lookup of the mounts nested under a
//! path, and the decisions taken for each of them when overrides are stacked.
use vstd::prelude::*;

pub mod mount_tree;
pub mod overlay;

verus! {

/// Unmounting an overlay is deliberately left without effect.
pub fn umount_ro_overlay() {
}

} // verus!
