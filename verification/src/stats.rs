//! Filesystem statistics: the (block size, total blocks, free blocks)
//! snapshot a statistics call returns for a mount point, and the byte
//! totals derived from it. A mount point with no snapshot stands for a
//! failed call.

use vstd::prelude::*;
use crate::sat64;
use crate::text::{opt_view, spec_parse_u64_or_zero, parse_u64_or_zero, str_eq};

verus! {

/// One successful statistics call: sizes in blocks.
#[derive(Clone, Copy, Debug, PartialEq, Eq, Structural)]
pub struct FsStat {
    pub block_size: u64,
    pub blocks: u64,
    pub blocks_free: u64,
}

/// The statistics gathered for one mount point; `None` for a failed call.
#[derive(Debug)]
pub struct MountStat {
    pub mount_point: String,
    pub stat: Option<FsStat>,
}

/// The mathematical content of a `MountStat`.
pub struct MountStatV {
    pub mount_point: Seq<char>,
    pub stat: Option<FsStat>,
}

impl View for MountStat {
    type V = MountStatV;

    open spec fn view(&self) -> MountStatV {
        MountStatV { mount_point: self.mount_point@, stat: self.stat }
    }
}

/// The snapshot recorded for `mp`: the first entry for that mount point,
/// and `None` where there is none or its call failed.
pub open spec fn spec_stat_for(stats: Seq<MountStatV>, mp: Seq<char>) -> Option<FsStat>
    decreases stats.len(),
{
    if stats.len() == 0 {
        None
    } else if stats[0].mount_point == mp {
        stats[0].stat
    } else {
        spec_stat_for(stats.skip(1), mp)
    }
}

pub fn stat_for(stats: &Vec<MountStat>, mp: &str) -> (r: Option<FsStat>)
    ensures
        r == spec_stat_for(crate::text::seq_views(stats@), mp@),
{
    let ghost sv = crate::text::seq_views(stats@);
    let mut i: usize = 0;
    proof {
        assert(sv.skip(0) =~= sv);
    }
    while i < stats.len()
        invariant
            0 <= i <= stats.len(),
            crate::text::seq_views(stats@) == sv,
            stats@.len() == sv.len(),
            spec_stat_for(sv, mp@) == spec_stat_for(sv.skip(i as int), mp@),
        decreases stats.len() - i,
    {
        proof {
            assert(stats@[i as int]@ == sv[i as int]);
            assert(sv.skip(i as int)[0] == sv[i as int]);
            assert(sv.skip(i as int).skip(1) =~= sv.skip(i + 1));
        }
        if str_eq(stats[i].mount_point.as_str(), mp) {
            return stats[i].stat;
        }
        i += 1;
    }
    proof {
        assert(sv.skip(sv.len() as int) =~= Seq::<MountStatV>::empty());
    }
    None
}

/// A product of two `u64` values, clamped into `u64`.
fn sat_mul(a: u64, b: u64) -> (r: u64)
    ensures
        r == sat64(a as int * b as int),
{
    proof {
        vstd::arithmetic::mul::lemma_mul_nonnegative(a as int, b as int);
    }
    match a.checked_mul(b) {
        Some(v) => v,
        None => u64::MAX,
    }
}

/// The (total, used) bytes of an ordinary partition: all blocks are total,
/// the non-free blocks are used, each clamped into `u64`.
pub open spec fn spec_space_normal(st: FsStat) -> (u64, u64) {
    let total = sat64(st.blocks * st.block_size);
    let free = sat64(st.blocks_free * st.block_size);
    (total, if free <= total {
        (total - free) as u64
    } else {
        0u64
    })
}

pub fn space_normal(st: &FsStat) -> (r: (u64, u64))
    ensures
        r == spec_space_normal(*st),
        r.1 <= r.0,
{
    let total = sat_mul(st.blocks, st.block_size);
    let free = sat_mul(st.blocks_free, st.block_size);
    let used = total.saturating_sub(free);
    (total, used)
}

/// The (total, used) bytes of an optical partition: the medium counts as
/// full, from the statistics call where it succeeds and otherwise from the
/// device's raw sector count at 512 bytes apiece.
pub open spec fn spec_space_cdrom(st: Option<FsStat>, size_prop: Option<Seq<char>>) -> (u64, u64) {
    match st {
        Some(s) => {
            let total = sat64(s.blocks * s.block_size);
            (total, total)
        },
        None => {
            let sectors = match size_prop {
                Some(sz) => spec_parse_u64_or_zero(sz),
                None => 0u64,
            };
            let bytes = sat64(sectors * 512);
            (bytes, bytes)
        },
    }
}

pub fn space_cdrom(st: &Option<FsStat>, size_prop: &Option<String>) -> (r: (u64, u64))
    ensures
        r == spec_space_cdrom(*st, opt_view(*size_prop)),
        r.1 == r.0,
{
    match st {
        Some(s) => {
            let total = sat_mul(s.blocks, s.block_size);
            (total, total)
        },
        None => {
            let sectors = match size_prop {
                Some(sz) => parse_u64_or_zero(sz.as_str()),
                None => 0u64,
            };
            let bytes = sat_mul(sectors, 512);
            (bytes, bytes)
        },
    }
}

} // verus!
