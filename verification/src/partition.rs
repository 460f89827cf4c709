//! The display-side state of the drive list: which disks are expanded, and
//! the grand totals shown in the header.

use vstd::prelude::*;
use crate::sat64;
use crate::disk::{Drive, DriveV, PartitionInfoV};
use crate::text::seq_views;

verus! {

/// The drive list together with one expansion flag per drive.
#[derive(Debug)]
pub struct DiskState {
    pub drives: Vec<Drive>,
    pub expanded: Vec<bool>,
}

impl DiskState {
    /// One flag per drive.
    pub open spec fn wf(self) -> bool {
        self.expanded@.len() == self.drives@.len()
    }

    /// A fresh state: every drive collapsed.
    pub fn new(drives: Vec<Drive>) -> (r: DiskState)
        ensures
            r.wf(),
            r.drives@ == drives@,
            r.expanded@.len() == drives@.len(),
            forall|i: int| 0 <= i < r.expanded@.len() ==> r.expanded@[i] == false,
    {
        let n = drives.len();
        let mut expanded: Vec<bool> = Vec::new();
        let mut i: usize = 0;
        while i < n
            invariant
                0 <= i <= n,
                expanded@.len() == i,
                forall|k: int| 0 <= k < i ==> expanded@[k] == false,
            decreases n - i,
        {
            expanded.push(false);
            i += 1;
        }
        DiskState { drives, expanded }
    }

    /// Flip one drive's expansion flag; indices out of range change
    /// nothing.
    pub fn toggle(&mut self, index: usize)
        ensures
            final(self).drives@ == old(self).drives@,
            index < old(self).expanded@.len() ==> final(self).expanded@ == old(
                self,
            ).expanded@.update(index as int, !old(self).expanded@[index as int]),
            index >= old(self).expanded@.len() ==> final(self).expanded@ == old(self).expanded@,
            old(self).wf() ==> final(self).wf(),
    {
        if index < self.expanded.len() {
            let v = self.expanded[index];
            self.expanded.set(index, !v);
        }
    }
}

/// A drive's share of the grand total space.
pub open spec fn spec_drive_total(d: DriveV) -> int {
    match d {
        DriveV::Local(disk) => disk.total_space as int,
        DriveV::Network(n) => n.total_space as int,
    }
}

/// The total space over a drive list.
pub open spec fn spec_total_space(ds: Seq<DriveV>) -> int
    decreases ds.len(),
{
    if ds.len() == 0 {
        0
    } else {
        spec_total_space(ds.drop_last()) + spec_drive_total(ds.last())
    }
}

/// The used space over a disk's partitions.
pub open spec fn spec_partitions_used(parts: Seq<PartitionInfoV>) -> int
    decreases parts.len(),
{
    if parts.len() == 0 {
        0
    } else {
        spec_partitions_used(parts.drop_last()) + parts.last().used_space
    }
}

/// A drive's share of the grand used space: a disk counts its partitions'
/// used space, a network drive its own.
pub open spec fn spec_drive_used(d: DriveV) -> int {
    match d {
        DriveV::Local(disk) => spec_partitions_used(disk.partitions),
        DriveV::Network(n) => n.used_space as int,
    }
}

/// The used space over a drive list.
pub open spec fn spec_used_space(ds: Seq<DriveV>) -> int
    decreases ds.len(),
{
    if ds.len() == 0 {
        0
    } else {
        spec_used_space(ds.drop_last()) + spec_drive_used(ds.last())
    }
}

proof fn lemma_total_space_nonneg(ds: Seq<DriveV>)
    ensures
        spec_total_space(ds) >= 0,
    decreases ds.len(),
{
    if ds.len() > 0 {
        lemma_total_space_nonneg(ds.drop_last());
    }
}

proof fn lemma_partitions_used_nonneg(parts: Seq<PartitionInfoV>)
    ensures
        spec_partitions_used(parts) >= 0,
    decreases parts.len(),
{
    if parts.len() > 0 {
        lemma_partitions_used_nonneg(parts.drop_last());
    }
}

proof fn lemma_used_space_nonneg(ds: Seq<DriveV>)
    ensures
        spec_used_space(ds) >= 0,
    decreases ds.len(),
{
    if ds.len() > 0 {
        lemma_used_space_nonneg(ds.drop_last());
        match ds.last() {
            DriveV::Local(disk) => lemma_partitions_used_nonneg(disk.partitions),
            DriveV::Network(_) => {},
        }
    }
}

/// The grand total space of a drive list, clamped into `u64`.
pub fn total_space_of(drives: &Vec<Drive>) -> (r: u64)
    ensures
        r == sat64(spec_total_space(seq_views(drives@))),
{
    let ghost dv = seq_views(drives@);
    let mut total: u64 = 0;
    let mut i: usize = 0;
    proof {
        assert(dv.take(0) =~= Seq::<DriveV>::empty());
    }
    while i < drives.len()
        invariant
            0 <= i <= drives.len(),
            seq_views(drives@) == dv,
            drives@.len() == dv.len(),
            total == sat64(spec_total_space(dv.take(i as int))),
        decreases drives.len() - i,
    {
        proof {
            assert(drives@[i as int]@ == dv[i as int]);
            assert(dv.take(i + 1).drop_last() =~= dv.take(i as int));
            assert(dv.take(i + 1).last() == dv[i as int]);
            lemma_total_space_nonneg(dv.take(i as int));
        }
        let share = match &drives[i] {
            Drive::Local(disk) => disk.total_space,
            Drive::Network(n) => n.total_space,
        };
        total = total.saturating_add(share);
        i += 1;
    }
    proof {
        assert(dv.take(dv.len() as int) =~= dv);
    }
    total
}

fn drive_used(d: &Drive) -> (r: u64)
    ensures
        r == sat64(spec_drive_used(d@)),
{
    match d {
        Drive::Local(disk) => {
            let ghost pv = seq_views(disk.partitions@);
            let mut used: u64 = 0;
            let mut j: usize = 0;
            proof {
                assert(pv.take(0) =~= Seq::<PartitionInfoV>::empty());
            }
            while j < disk.partitions.len()
                invariant
                    0 <= j <= disk.partitions.len(),
                    seq_views(disk.partitions@) == pv,
                    disk.partitions@.len() == pv.len(),
                    used == sat64(spec_partitions_used(pv.take(j as int))),
                decreases disk.partitions.len() - j,
            {
                proof {
                    assert(disk.partitions@[j as int]@ == pv[j as int]);
                    assert(pv.take(j + 1).drop_last() =~= pv.take(j as int));
                    assert(pv.take(j + 1).last() == pv[j as int]);
                    lemma_partitions_used_nonneg(pv.take(j as int));
                }
                used = used.saturating_add(disk.partitions[j].used_space);
                j += 1;
            }
            proof {
                assert(pv.take(pv.len() as int) =~= pv);
            }
            used
        },
        Drive::Network(n) => n.used_space,
    }
}

/// The grand used space of a drive list, clamped into `u64`.
pub fn used_space_of(drives: &Vec<Drive>) -> (r: u64)
    ensures
        r == sat64(spec_used_space(seq_views(drives@))),
{
    let ghost dv = seq_views(drives@);
    let mut total: u64 = 0;
    let mut i: usize = 0;
    proof {
        assert(dv.take(0) =~= Seq::<DriveV>::empty());
    }
    while i < drives.len()
        invariant
            0 <= i <= drives.len(),
            seq_views(drives@) == dv,
            drives@.len() == dv.len(),
            total == sat64(spec_used_space(dv.take(i as int))),
        decreases drives.len() - i,
    {
        proof {
            assert(drives@[i as int]@ == dv[i as int]);
            assert(dv.take(i + 1).drop_last() =~= dv.take(i as int));
            assert(dv.take(i + 1).last() == dv[i as int]);
            lemma_used_space_nonneg(dv.take(i as int));
            match dv[i as int] {
                DriveV::Local(disk) => lemma_partitions_used_nonneg(disk.partitions),
                DriveV::Network(_) => {},
            }
        }
        let share = drive_used(&drives[i]);
        total = total.saturating_add(share);
        i += 1;
    }
    proof {
        assert(dv.take(dv.len() as int) =~= dv);
    }
    total
}

} // verus!
