//! Core logic of a disk-usage analyzer: a filesystem crawler that turns a
//! stream of (path, size, is-directory) observations into per-directory
//! cumulative sizes, and a storage topology resolver that matches block
//! devices to live mounts, groups partitions under their root devices and
//! classifies optical, removable and network storage.
//!
//! All functions here are pure: the surrounding application gathers the raw
//! inputs (mount table text, device records, filesystem statistics, crawl
//! observations) and hands them in as plain values.

use vstd::prelude::*;

pub mod crawler;
pub mod devices;
pub mod disk;
pub mod files;
pub mod mounts;
pub mod partition;
pub mod sizes;
pub mod stats;
pub mod text;

verus! {

/// Clamp a mathematical sum into the `u64` range.
pub open spec fn sat64(x: int) -> u64 {
    if x > u64::MAX { u64::MAX } else if x < 0 { 0 } else { x as u64 }
}

} // verus!
