//! The storage topology resolver. From three plain-value snapshots — the
//! enumerated block devices, the mount table text, and per-mount-point
//! filesystem statistics — it produces the drive list: block devices that
//! pass the filters become partitions grouped under their root devices, and
//! network mounts become network drives.

use vstd::prelude::*;
use crate::sat64;
use crate::devices::{
    DeviceRecord, DeviceRecordV, icon_for, is_blacklisted, is_cdrom_device, model_for,
    root_device_of, spec_icon_for, spec_is_blacklisted, spec_is_cdrom, spec_model_for,
    spec_root_device_of,
};
use crate::mounts::{
    MountEntry, MountEntryV, device_mounts, find_mount, is_network_fs, parse_mounts,
    spec_device_mounts, spec_find_mount, spec_is_network_fs, spec_parse_mounts,
};
use crate::stats::{
    FsStat, MountStat, MountStatV, space_cdrom, space_normal, spec_space_cdrom, spec_space_normal,
    spec_stat_for, stat_for,
};
use crate::text::{seq_views, spec_starts_with, starts_with_str, str_eq};

verus! {

/// One mounted filesystem backed by a block device.
#[derive(Debug)]
pub struct PartitionInfo {
    pub device: String,
    pub mount_point: String,
    pub total_space: u64,
    pub used_space: u64,
    pub file_system: String,
}

/// The mathematical content of a `PartitionInfo`.
pub struct PartitionInfoV {
    pub device: Seq<char>,
    pub mount_point: Seq<char>,
    pub total_space: u64,
    pub used_space: u64,
    pub file_system: Seq<char>,
}

impl View for PartitionInfo {
    type V = PartitionInfoV;

    open spec fn view(&self) -> PartitionInfoV {
        PartitionInfoV {
            device: self.device@,
            mount_point: self.mount_point@,
            total_space: self.total_space,
            used_space: self.used_space,
            file_system: self.file_system@,
        }
    }
}

impl PartitionInfo {
    /// A field-for-field copy.
    pub fn duplicate(&self) -> (r: PartitionInfo)
        ensures
            r@ == self@,
    {
        PartitionInfo {
            device: self.device.clone(),
            mount_point: self.mount_point.clone(),
            total_space: self.total_space,
            used_space: self.used_space,
            file_system: self.file_system.clone(),
        }
    }
}

/// A root block device with the partitions resolved under it.
#[derive(Debug)]
pub struct DiskInfo {
    pub model: String,
    pub total_space: u64,
    pub partitions: Vec<PartitionInfo>,
    pub is_cdrom: bool,
    pub icon_name: String,
}

/// The mathematical content of a `DiskInfo`.
pub struct DiskInfoV {
    pub model: Seq<char>,
    pub total_space: u64,
    pub partitions: Seq<PartitionInfoV>,
    pub is_cdrom: bool,
    pub icon_name: Seq<char>,
}

impl View for DiskInfo {
    type V = DiskInfoV;

    open spec fn view(&self) -> DiskInfoV {
        DiskInfoV {
            model: self.model@,
            total_space: self.total_space,
            partitions: seq_views(self.partitions@),
            is_cdrom: self.is_cdrom,
            icon_name: self.icon_name@,
        }
    }
}

/// A remote mount with no local block device behind it.
#[derive(Debug)]
pub struct NetworkDrive {
    pub mount_point: String,
    pub used_space: u64,
    pub total_space: u64,
}

/// The mathematical content of a `NetworkDrive`.
pub struct NetworkDriveV {
    pub mount_point: Seq<char>,
    pub used_space: u64,
    pub total_space: u64,
}

impl View for NetworkDrive {
    type V = NetworkDriveV;

    open spec fn view(&self) -> NetworkDriveV {
        NetworkDriveV {
            mount_point: self.mount_point@,
            used_space: self.used_space,
            total_space: self.total_space,
        }
    }
}

/// The unit of the scan result: a local disk or a network drive.
#[derive(Debug)]
pub enum Drive {
    Local(DiskInfo),
    Network(NetworkDrive),
}

/// The mathematical content of a `Drive`.
pub enum DriveV {
    Local(DiskInfoV),
    Network(NetworkDriveV),
}

impl View for Drive {
    type V = DriveV;

    open spec fn view(&self) -> DriveV {
        match self {
            Drive::Local(d) => DriveV::Local(d@),
            Drive::Network(n) => DriveV::Network(n@),
        }
    }
}

/// A partition still carrying its resolution metadata: the root device it
/// belongs to, and the classification of the device that produced it.
#[derive(Debug)]
pub struct PartRec {
    pub part: PartitionInfo,
    pub root_dev: String,
    pub is_cdrom: bool,
    pub icon: String,
}

/// The mathematical content of a `PartRec`.
pub struct PartRecV {
    pub part: PartitionInfoV,
    pub root_dev: Seq<char>,
    pub is_cdrom: bool,
    pub icon: Seq<char>,
}

impl View for PartRec {
    type V = PartRecV;

    open spec fn view(&self) -> PartRecV {
        PartRecV {
            part: self.part@,
            root_dev: self.root_dev@,
            is_cdrom: self.is_cdrom,
            icon: self.icon@,
        }
    }
}

/// A device passes the filters: it has a node under `/dev/`, the node does
/// not belong to a non-storage subsystem, a live mount backs it, and that
/// mount's filesystem type is neither empty nor unknown.
pub open spec fn spec_accepted(d: DeviceRecordV, mounts: Seq<MountEntryV>) -> bool {
    match d.devnode {
        None => false,
        Some(node) => spec_starts_with(node, "/dev/"@) && !spec_is_blacklisted(node) && match
            spec_find_mount(mounts, node) {
            None => false,
            Some(m) => m.file_system.len() > 0 && m.file_system != "unknown"@,
        },
    }
}

/// The partition an accepted device resolves to, with its metadata.
/// Optical media count as full, falling back to the raw sector count when
/// the statistics call failed; any other device whose call failed reports
/// zero space.
pub open spec fn spec_part_rec(
    d: DeviceRecordV,
    mounts: Seq<MountEntryV>,
    stats: Seq<MountStatV>,
) -> PartRecV
    recommends
        spec_accepted(d, mounts),
{
    let node = d.devnode->0;
    let m = spec_find_mount(mounts, node)->0;
    let cd = spec_is_cdrom(node);
    let st = spec_stat_for(stats, m.mount_point);
    let space = if cd {
        spec_space_cdrom(st, d.size_sectors)
    } else {
        match st {
            Some(s) => spec_space_normal(s),
            None => (0u64, 0u64),
        }
    };
    PartRecV {
        part: PartitionInfoV {
            device: node,
            mount_point: m.mount_point,
            total_space: space.0,
            used_space: space.1,
            file_system: m.file_system,
        },
        root_dev: spec_root_device_of(node),
        is_cdrom: cd,
        icon: spec_icon_for(cd, d.drive_media, d.bus),
    }
}

/// The partition records of every accepted device, in discovery order.
pub open spec fn spec_part_recs(
    ds: Seq<DeviceRecordV>,
    mounts: Seq<MountEntryV>,
    stats: Seq<MountStatV>,
) -> Seq<PartRecV>
    decreases ds.len(),
{
    if ds.len() == 0 {
        Seq::empty()
    } else {
        spec_part_recs(ds.drop_last(), mounts, stats) + if spec_accepted(ds.last(), mounts) {
            seq![spec_part_rec(ds.last(), mounts, stats)]
        } else {
            Seq::empty()
        }
    }
}

/// Build the partition record of each accepted device.
pub fn build_partitions(
    devices: &Vec<DeviceRecord>,
    mounts: &Vec<MountEntry>,
    stats: &Vec<MountStat>,
) -> (r: Vec<PartRec>)
    ensures
        seq_views(r@) == spec_part_recs(seq_views(devices@), seq_views(mounts@), seq_views(stats@)),
{
    let ghost dsv = seq_views(devices@);
    let ghost mv = seq_views(mounts@);
    let ghost sv = seq_views(stats@);
    let mut out: Vec<PartRec> = Vec::new();
    let mut i: usize = 0;
    proof {
        assert(dsv.take(0) =~= Seq::<DeviceRecordV>::empty());
        assert(seq_views(out@) =~= spec_part_recs(dsv.take(0), mv, sv));
    }
    while i < devices.len()
        invariant
            0 <= i <= devices.len(),
            seq_views(devices@) == dsv,
            seq_views(mounts@) == mv,
            seq_views(stats@) == sv,
            devices@.len() == dsv.len(),
            seq_views(out@) == spec_part_recs(dsv.take(i as int), mv, sv),
        decreases devices.len() - i,
    {
        let ghost old_out = out@;
        proof {
            assert(devices@[i as int]@ == dsv[i as int]);
            assert(dsv.take(i + 1).drop_last() =~= dsv.take(i as int));
            assert(dsv.take(i + 1).last() == dsv[i as int]);
        }
        let d = &devices[i];
        let mut added = false;
        match &d.devnode {
            None => {},
            Some(node) => {
                if starts_with_str(node.as_str(), "/dev/") && !is_blacklisted(node.as_str()) {
                    match find_mount(mounts, node.as_str()) {
                        None => {},
                        Some(m) => {
                            let fs_empty = m.file_system.as_str().unicode_len() == 0;
                            if !fs_empty && !str_eq(m.file_system.as_str(), "unknown") {
                                let cd = is_cdrom_device(node.as_str());
                                let st = stat_for(stats, m.mount_point.as_str());
                                let space = if cd {
                                    space_cdrom(&st, &d.size_sectors)
                                } else {
                                    match st {
                                        Some(s) => space_normal(&s),
                                        None => (0u64, 0u64),
                                    }
                                };
                                let icon = icon_for(cd, &d.drive_media, &d.bus);
                                let root = root_device_of(node.as_str());
                                let rec = PartRec {
                                    part: PartitionInfo {
                                        device: node.clone(),
                                        mount_point: m.mount_point,
                                        total_space: space.0,
                                        used_space: space.1,
                                        file_system: m.file_system,
                                    },
                                    root_dev: root,
                                    is_cdrom: cd,
                                    icon,
                                };
                                let ghost rv = rec@;
                                proof {
                                    assert(spec_accepted(dsv[i as int], mv));
                                    assert(rv == spec_part_rec(dsv[i as int], mv, sv));
                                }
                                out.push(rec);
                                added = true;
                                proof {
                                    assert(seq_views(out@) =~= seq_views(old_out).push(rv));
                                    assert(seq_views(old_out).push(rv) =~= seq_views(old_out)
                                        + seq![rv]);
                                }
                            }
                        },
                    }
                }
            },
        }
        proof {
            if !added {
                assert(!spec_accepted(dsv[i as int], mv));
                assert(seq_views(out@) + Seq::<PartRecV>::empty() =~= seq_views(out@));
            }
            assert(seq_views(out@) =~= spec_part_recs(dsv.take(i + 1), mv, sv));
        }
        i += 1;
    }
    proof {
        assert(dsv.take(dsv.len() as int) =~= dsv);
    }
    out
}

/// The distinct root devices of a record list, in order of first
/// appearance.
pub open spec fn spec_roots(recs: Seq<PartRecV>) -> Seq<Seq<char>>
    decreases recs.len(),
{
    if recs.len() == 0 {
        Seq::empty()
    } else {
        let rs = spec_roots(recs.drop_last());
        if rs.contains(recs.last().root_dev) {
            rs
        } else {
            rs.push(recs.last().root_dev)
        }
    }
}

/// The roots list holds exactly the roots that occur, without duplicates.
pub proof fn lemma_roots(recs: Seq<PartRecV>)
    ensures
        forall|x: Seq<char>|
            #[trigger] spec_roots(recs).contains(x) <==> exists|k: int|
                0 <= k < recs.len() && #[trigger] recs[k].root_dev == x,
        forall|a: int, b: int|
            0 <= a < b < spec_roots(recs).len() ==> spec_roots(recs)[a] != spec_roots(recs)[b],
    decreases recs.len(),
{
    if recs.len() > 0 {
        lemma_roots(recs.drop_last());
        let rs = spec_roots(recs.drop_last());
        let last = recs.last();
        assert(forall|k: int|
            0 <= k < recs.len() - 1 ==> #[trigger] recs[k].root_dev == recs.drop_last()[
            k].root_dev);
        if !rs.contains(last.root_dev) {
            let pushed = rs.push(last.root_dev);
            assert forall|x: Seq<char>| #[trigger] pushed.contains(x) implies rs.contains(x) || x
                == last.root_dev by {
                let k = choose|k: int| 0 <= k < pushed.len() && pushed[k] == x;
                if k < rs.len() {
                    assert(rs[k] == x);
                }
            }
            assert forall|x: Seq<char>| rs.contains(x) || x == last.root_dev implies #[trigger]
            pushed.contains(x) by {
                if rs.contains(x) {
                    let k = choose|k: int| 0 <= k < rs.len() && rs[k] == x;
                    assert(pushed[k] == x);
                } else {
                    assert(pushed[rs.len() as int] == x);
                }
            }
            assert(recs[recs.len() - 1].root_dev == last.root_dev);
        }
    }
}

/// The partitions of the records whose root is `root`, in order.
pub open spec fn spec_parts_with_root(recs: Seq<PartRecV>, root: Seq<char>) -> Seq<PartitionInfoV>
    decreases recs.len(),
{
    if recs.len() == 0 {
        Seq::empty()
    } else {
        spec_parts_with_root(recs.drop_last(), root) + if recs.last().root_dev == root {
            seq![recs.last().part]
        } else {
            Seq::empty()
        }
    }
}

/// The first record whose root is `root`: it decides the group's optical
/// flag and icon.
pub open spec fn spec_first_with_root(recs: Seq<PartRecV>, root: Seq<char>) -> Option<PartRecV>
    decreases recs.len(),
{
    if recs.len() == 0 {
        None
    } else {
        match spec_first_with_root(recs.drop_last(), root) {
            Some(r) => Some(r),
            None => if recs.last().root_dev == root {
                Some(recs.last())
            } else {
                None
            },
        }
    }
}

/// A root device together with everything resolved under it.
#[derive(Debug)]
pub struct RootGroup {
    pub root_dev: String,
    pub parts: Vec<PartitionInfo>,
    pub is_cdrom: bool,
    pub icon: String,
}

/// The mathematical content of a `RootGroup`.
pub struct RootGroupV {
    pub root_dev: Seq<char>,
    pub parts: Seq<PartitionInfoV>,
    pub is_cdrom: bool,
    pub icon: Seq<char>,
}

impl View for RootGroup {
    type V = RootGroupV;

    open spec fn view(&self) -> RootGroupV {
        RootGroupV {
            root_dev: self.root_dev@,
            parts: seq_views(self.parts@),
            is_cdrom: self.is_cdrom,
            icon: self.icon@,
        }
    }
}

/// The group gathered for one root.
pub open spec fn spec_group_for(recs: Seq<PartRecV>, root: Seq<char>) -> RootGroupV {
    RootGroupV {
        root_dev: root,
        parts: spec_parts_with_root(recs, root),
        is_cdrom: match spec_first_with_root(recs, root) {
            Some(r) => r.is_cdrom,
            None => false,
        },
        icon: match spec_first_with_root(recs, root) {
            Some(r) => r.icon,
            None => Seq::empty(),
        },
    }
}

/// One group per root, in the roots' order.
pub open spec fn spec_groups_of(recs: Seq<PartRecV>, roots: Seq<Seq<char>>) -> Seq<RootGroupV>
    decreases roots.len(),
{
    if roots.len() == 0 {
        Seq::empty()
    } else {
        spec_groups_of(recs, roots.drop_last()) + seq![spec_group_for(recs, roots.last())]
    }
}

/// The records grouped by root device, groups in order of each root's first
/// appearance, partitions in discovery order within each group.
pub open spec fn spec_groups(recs: Seq<PartRecV>) -> Seq<RootGroupV> {
    spec_groups_of(recs, spec_roots(recs))
}

fn contains_string(v: &Vec<String>, s: &str) -> (r: bool)
    ensures
        r == seq_views(v@).contains(s@),
{
    let ghost vv = seq_views(v@);
    let mut i: usize = 0;
    while i < v.len()
        invariant
            0 <= i <= v.len(),
            seq_views(v@) == vv,
            v@.len() == vv.len(),
            forall|k: int| 0 <= k < i ==> vv[k] != s@,
        decreases v.len() - i,
    {
        proof {
            assert(v@[i as int]@ == vv[i as int]);
        }
        if str_eq(v[i].as_str(), s) {
            assert(vv.contains(s@));
            return true;
        }
        i += 1;
    }
    assert(forall|k: int| 0 <= k < vv.len() ==> vv[k] != s@);
    false
}

fn collect_roots(recs: &Vec<PartRec>) -> (r: Vec<String>)
    ensures
        seq_views(r@) == spec_roots(seq_views(recs@)),
{
    let ghost rv = seq_views(recs@);
    let mut out: Vec<String> = Vec::new();
    let mut i: usize = 0;
    proof {
        assert(rv.take(0) =~= Seq::<PartRecV>::empty());
        assert(seq_views(out@) =~= spec_roots(rv.take(0)));
    }
    while i < recs.len()
        invariant
            0 <= i <= recs.len(),
            seq_views(recs@) == rv,
            recs@.len() == rv.len(),
            seq_views(out@) == spec_roots(rv.take(i as int)),
        decreases recs.len() - i,
    {
        let ghost old_out = out@;
        proof {
            assert(recs@[i as int]@ == rv[i as int]);
            assert(rv.take(i + 1).drop_last() =~= rv.take(i as int));
            assert(rv.take(i + 1).last() == rv[i as int]);
        }
        if !contains_string(&out, recs[i].root_dev.as_str()) {
            let root = recs[i].root_dev.clone();
            let ghost rootv = root@;
            out.push(root);
            proof {
                assert(seq_views(out@) =~= seq_views(old_out).push(rootv));
            }
        }
        proof {
            assert(seq_views(out@) =~= spec_roots(rv.take(i + 1)));
        }
        i += 1;
    }
    proof {
        assert(rv.take(rv.len() as int) =~= rv);
    }
    out
}

fn group_for(recs: &Vec<PartRec>, root: &str) -> (r: RootGroup)
    ensures
        r@ == spec_group_for(seq_views(recs@), root@),
{
    let ghost rv = seq_views(recs@);
    let mut parts: Vec<PartitionInfo> = Vec::new();
    let mut cd = false;
    let mut icon = String::new();
    let mut found = false;
    let mut i: usize = 0;
    proof {
        assert(rv.take(0) =~= Seq::<PartRecV>::empty());
        assert(seq_views(parts@) =~= spec_parts_with_root(rv.take(0), root@));
    }
    while i < recs.len()
        invariant
            0 <= i <= recs.len(),
            seq_views(recs@) == rv,
            recs@.len() == rv.len(),
            seq_views(parts@) == spec_parts_with_root(rv.take(i as int), root@),
            found == (spec_first_with_root(rv.take(i as int), root@) is Some),
            found ==> (spec_first_with_root(rv.take(i as int), root@) matches Some(fr) && cd
                == fr.is_cdrom && icon@ == fr.icon),
            !found ==> icon@ == Seq::<char>::empty() && cd == false,
        decreases recs.len() - i,
    {
        let ghost old_parts = parts@;
        proof {
            assert(recs@[i as int]@ == rv[i as int]);
            assert(rv.take(i + 1).drop_last() =~= rv.take(i as int));
            assert(rv.take(i + 1).last() == rv[i as int]);
        }
        if str_eq(recs[i].root_dev.as_str(), root) {
            if !found {
                found = true;
                cd = recs[i].is_cdrom;
                icon = recs[i].icon.clone();
            }
            let p = recs[i].part.duplicate();
            let ghost pv = p@;
            parts.push(p);
            proof {
                assert(seq_views(parts@) =~= seq_views(old_parts).push(pv));
                assert(seq_views(old_parts).push(pv) =~= seq_views(old_parts) + seq![pv]);
            }
        } else {
            proof {
                assert(seq_views(parts@) + Seq::<PartitionInfoV>::empty() =~= seq_views(parts@));
            }
        }
        proof {
            assert(seq_views(parts@) =~= spec_parts_with_root(rv.take(i + 1), root@));
        }
        i += 1;
    }
    proof {
        assert(rv.take(rv.len() as int) =~= rv);
    }
    let r = RootGroup { root_dev: root.to_owned(), parts, is_cdrom: cd, icon };
    proof {
        assert(r@.parts == spec_parts_with_root(rv, root@));
        assert(r@.is_cdrom == spec_group_for(rv, root@).is_cdrom);
        assert(r@.icon == spec_group_for(rv, root@).icon);
        assert(r@ == spec_group_for(rv, root@));
    }
    r
}

/// Group the partition records by root device.
pub fn group_partitions(recs: &Vec<PartRec>) -> (r: Vec<RootGroup>)
    ensures
        seq_views(r@) == spec_groups(seq_views(recs@)),
{
    let ghost rv = seq_views(recs@);
    let roots = collect_roots(recs);
    let ghost rootsv = spec_roots(rv);
    let mut out: Vec<RootGroup> = Vec::new();
    let mut g: usize = 0;
    proof {
        assert(rootsv.take(0) =~= Seq::<Seq<char>>::empty());
        assert(seq_views(out@) =~= spec_groups_of(rv, rootsv.take(0)));
    }
    while g < roots.len()
        invariant
            0 <= g <= roots.len(),
            seq_views(recs@) == rv,
            seq_views(roots@) == rootsv,
            roots@.len() == rootsv.len(),
            seq_views(out@) == spec_groups_of(rv, rootsv.take(g as int)),
        decreases roots.len() - g,
    {
        let ghost old_out = out@;
        proof {
            assert(roots@[g as int]@ == rootsv[g as int]);
            assert(rootsv.take(g + 1).drop_last() =~= rootsv.take(g as int));
            assert(rootsv.take(g + 1).last() == rootsv[g as int]);
        }
        let grp = group_for(recs, roots[g].as_str());
        let ghost gv = grp@;
        out.push(grp);
        proof {
            assert(seq_views(out@) =~= seq_views(old_out).push(gv));
            assert(seq_views(old_out).push(gv) =~= seq_views(old_out) + seq![gv]);
            assert(seq_views(out@) =~= spec_groups_of(rv, rootsv.take(g + 1)));
        }
        g += 1;
    }
    proof {
        assert(rootsv.take(rootsv.len() as int) =~= rootsv);
    }
    out
}

/// The sum of the partitions' total space, as a mathematical integer.
pub open spec fn spec_disk_total(parts: Seq<PartitionInfoV>) -> int
    decreases parts.len(),
{
    if parts.len() == 0 {
        0
    } else {
        spec_disk_total(parts.drop_last()) + parts.last().total_space
    }
}

fn disk_total(parts: &Vec<PartitionInfo>) -> (r: u64)
    ensures
        r == sat64(spec_disk_total(seq_views(parts@))),
{
    let ghost pv = seq_views(parts@);
    let mut total: u64 = 0;
    let mut i: usize = 0;
    proof {
        assert(pv.take(0) =~= Seq::<PartitionInfoV>::empty());
    }
    while i < parts.len()
        invariant
            0 <= i <= parts.len(),
            seq_views(parts@) == pv,
            parts@.len() == pv.len(),
            total == sat64(spec_disk_total(pv.take(i as int))),
        decreases parts.len() - i,
    {
        proof {
            assert(parts@[i as int]@ == pv[i as int]);
            assert(pv.take(i + 1).drop_last() =~= pv.take(i as int));
            assert(pv.take(i + 1).last() == pv[i as int]);
            lemma_disk_total_nonneg(pv.take(i as int));
        }
        total = total.saturating_add(parts[i].total_space);
        i += 1;
    }
    proof {
        assert(pv.take(pv.len() as int) =~= pv);
    }
    total
}

pub proof fn lemma_disk_total_nonneg(parts: Seq<PartitionInfoV>)
    ensures
        spec_disk_total(parts) >= 0,
    decreases parts.len(),
{
    if parts.len() > 0 {
        lemma_disk_total_nonneg(parts.drop_last());
    }
}

/// The disk a group resolves to: its partitions, the sum of their total
/// space clamped into `u64`, the model title of the root device, and the
/// optical icon forced whenever the group is optical.
pub open spec fn spec_disk_for(ds: Seq<DeviceRecordV>, g: RootGroupV) -> DiskInfoV {
    DiskInfoV {
        model: spec_model_for(ds, g.root_dev, g.is_cdrom),
        total_space: sat64(spec_disk_total(g.parts)),
        partitions: g.parts,
        is_cdrom: g.is_cdrom,
        icon_name: if g.is_cdrom {
            "drive-optical"@
        } else {
            g.icon
        },
    }
}

/// One disk per group, in order.
pub open spec fn spec_disks(ds: Seq<DeviceRecordV>, groups: Seq<RootGroupV>) -> Seq<DiskInfoV>
    decreases groups.len(),
{
    if groups.len() == 0 {
        Seq::empty()
    } else {
        spec_disks(ds, groups.drop_last()) + seq![spec_disk_for(ds, groups.last())]
    }
}

fn duplicate_parts(v: &Vec<PartitionInfo>) -> (r: Vec<PartitionInfo>)
    ensures
        seq_views(r@) == seq_views(v@),
{
    let ghost vv = seq_views(v@);
    let mut out: Vec<PartitionInfo> = Vec::new();
    let mut i: usize = 0;
    while i < v.len()
        invariant
            0 <= i <= v.len(),
            seq_views(v@) == vv,
            v@.len() == vv.len(),
            seq_views(out@) =~= vv.take(i as int),
        decreases v.len() - i,
    {
        let ghost old_out = out@;
        proof {
            assert(v@[i as int]@ == vv[i as int]);
        }
        let p = v[i].duplicate();
        let ghost pv = p@;
        out.push(p);
        proof {
            assert(seq_views(out@) =~= seq_views(old_out).push(pv));
            assert(seq_views(out@) =~= vv.take(i + 1));
        }
        i += 1;
    }
    proof {
        assert(vv.take(vv.len() as int) =~= vv);
    }
    out
}

/// Resolve each group into a `DiskInfo`.
pub fn build_disks(devices: &Vec<DeviceRecord>, groups: &Vec<RootGroup>) -> (r: Vec<DiskInfo>)
    ensures
        seq_views(r@) == spec_disks(seq_views(devices@), seq_views(groups@)),
{
    let ghost dsv = seq_views(devices@);
    let ghost gsv = seq_views(groups@);
    let mut out: Vec<DiskInfo> = Vec::new();
    let mut g: usize = 0;
    proof {
        assert(gsv.take(0) =~= Seq::<RootGroupV>::empty());
        assert(seq_views(out@) =~= spec_disks(dsv, gsv.take(0)));
    }
    while g < groups.len()
        invariant
            0 <= g <= groups.len(),
            seq_views(devices@) == dsv,
            seq_views(groups@) == gsv,
            groups@.len() == gsv.len(),
            seq_views(out@) == spec_disks(dsv, gsv.take(g as int)),
        decreases groups.len() - g,
    {
        let ghost old_out = out@;
        proof {
            assert(groups@[g as int]@ == gsv[g as int]);
            assert(gsv.take(g + 1).drop_last() =~= gsv.take(g as int));
            assert(gsv.take(g + 1).last() == gsv[g as int]);
        }
        let grp = &groups[g];
        let model = model_for(devices, grp.root_dev.as_str(), grp.is_cdrom);
        let total = disk_total(&grp.parts);
        let icon_name = if grp.is_cdrom {
            let s: String = "drive-optical".to_owned();
            s
        } else {
            grp.icon.clone()
        };
        let disk = DiskInfo {
            model,
            total_space: total,
            partitions: duplicate_parts(&grp.parts),
            is_cdrom: grp.is_cdrom,
            icon_name,
        };
        let ghost dv = disk@;
        proof {
            assert(dv == spec_disk_for(dsv, gsv[g as int]));
        }
        out.push(disk);
        proof {
            assert(seq_views(out@) =~= seq_views(old_out).push(dv));
            assert(seq_views(old_out).push(dv) =~= seq_views(old_out) + seq![dv]);
            assert(seq_views(out@) =~= spec_disks(dsv, gsv.take(g + 1)));
        }
        g += 1;
    }
    proof {
        assert(gsv.take(gsv.len() as int) =~= gsv);
    }
    out
}

/// The network drives of the mount table: every record whose filesystem
/// type names a network protocol and whose statistics call succeeded, read
/// as it stands, with no device matching and no unescaping.
pub open spec fn spec_network_drives(
    ms: Seq<MountEntryV>,
    stats: Seq<MountStatV>,
) -> Seq<NetworkDriveV>
    decreases ms.len(),
{
    if ms.len() == 0 {
        Seq::empty()
    } else {
        spec_network_drives(ms.drop_last(), stats) + if spec_is_network_fs(ms.last().file_system) {
            match spec_stat_for(stats, ms.last().mount_point) {
                Some(st) => seq![
                    NetworkDriveV {
                        mount_point: ms.last().mount_point,
                        used_space: spec_space_normal(st).1,
                        total_space: spec_space_normal(st).0,
                    },
                ],
                None => Seq::empty(),
            }
        } else {
            Seq::empty()
        }
    }
}

/// Collect the network drives.
pub fn network_drives(mounts: &Vec<MountEntry>, stats: &Vec<MountStat>) -> (r: Vec<NetworkDrive>)
    ensures
        seq_views(r@) == spec_network_drives(seq_views(mounts@), seq_views(stats@)),
{
    let ghost mv = seq_views(mounts@);
    let ghost sv = seq_views(stats@);
    let mut out: Vec<NetworkDrive> = Vec::new();
    let mut i: usize = 0;
    proof {
        assert(mv.take(0) =~= Seq::<MountEntryV>::empty());
        assert(seq_views(out@) =~= spec_network_drives(mv.take(0), sv));
    }
    while i < mounts.len()
        invariant
            0 <= i <= mounts.len(),
            seq_views(mounts@) == mv,
            seq_views(stats@) == sv,
            mounts@.len() == mv.len(),
            seq_views(out@) == spec_network_drives(mv.take(i as int), sv),
        decreases mounts.len() - i,
    {
        let ghost old_out = out@;
        proof {
            assert(mounts@[i as int]@ == mv[i as int]);
            assert(mv.take(i + 1).drop_last() =~= mv.take(i as int));
            assert(mv.take(i + 1).last() == mv[i as int]);
        }
        let mut added = false;
        if is_network_fs(mounts[i].file_system.as_str()) {
            match stat_for(stats, mounts[i].mount_point.as_str()) {
                Some(st) => {
                    let space = space_normal(&st);
                    let nd = NetworkDrive {
                        mount_point: mounts[i].mount_point.clone(),
                        used_space: space.1,
                        total_space: space.0,
                    };
                    let ghost nv = nd@;
                    out.push(nd);
                    added = true;
                    proof {
                        assert(seq_views(out@) =~= seq_views(old_out).push(nv));
                        assert(seq_views(old_out).push(nv) =~= seq_views(old_out) + seq![nv]);
                    }
                },
                None => {},
            }
        }
        proof {
            if !added {
                assert(seq_views(out@) + Seq::<NetworkDriveV>::empty() =~= seq_views(out@));
            }
            assert(seq_views(out@) =~= spec_network_drives(mv.take(i + 1), sv));
        }
        i += 1;
    }
    proof {
        assert(mv.take(mv.len() as int) =~= mv);
    }
    out
}

/// The disks wrapped as local drives.
pub open spec fn spec_local_drives(disks: Seq<DiskInfoV>) -> Seq<DriveV>
    decreases disks.len(),
{
    if disks.len() == 0 {
        Seq::empty()
    } else {
        spec_local_drives(disks.drop_last()) + seq![DriveV::Local(disks.last())]
    }
}

/// The network drives wrapped as drives.
pub open spec fn spec_net_drives(nets: Seq<NetworkDriveV>) -> Seq<DriveV>
    decreases nets.len(),
{
    if nets.len() == 0 {
        Seq::empty()
    } else {
        spec_net_drives(nets.drop_last()) + seq![DriveV::Network(nets.last())]
    }
}

/// The whole resolver pass: local disks first, network drives after.
pub open spec fn spec_scan_disks(
    ds: Seq<DeviceRecordV>,
    mounts_text: Seq<char>,
    stats: Seq<MountStatV>,
) -> Seq<DriveV> {
    let mounts = spec_parse_mounts(mounts_text);
    let dmounts = spec_device_mounts(mounts);
    let recs = spec_part_recs(ds, dmounts, stats);
    let disks = spec_disks(ds, spec_groups(recs));
    spec_local_drives(disks) + spec_net_drives(spec_network_drives(mounts, stats))
}

/// One resolver pass over plain snapshots: the enumerated block devices,
/// the mount table text, and the statistics gathered per mount point, both
/// for mount points as written and with their octal space escapes undone.
pub fn scan_disks(devices: &Vec<DeviceRecord>, mounts_text: &str, stats: &Vec<MountStat>) -> (r:
    Vec<Drive>)
    ensures
        seq_views(r@) == spec_scan_disks(seq_views(devices@), mounts_text@, seq_views(stats@)),
{
    let ghost dsv = seq_views(devices@);
    let ghost sv = seq_views(stats@);
    let mounts = parse_mounts(mounts_text);
    let dmounts = device_mounts(&mounts);
    let recs = build_partitions(devices, &dmounts, stats);
    let groups = group_partitions(&recs);
    let disks = build_disks(devices, &groups);
    let ghost disksv = seq_views(disks@);
    let nets = network_drives(&mounts, stats);
    let ghost netsv = seq_views(nets@);

    let mut out: Vec<Drive> = Vec::new();
    let mut idx: usize = 0;
    proof {
        assert(disksv.take(0) =~= Seq::<DiskInfoV>::empty());
        assert(seq_views(out@) =~= spec_local_drives(disksv.take(0)));
    }
    while idx < disks.len()
        invariant
            0 <= idx <= disks.len(),
            seq_views(disks@) == disksv,
            disks@.len() == disksv.len(),
            seq_views(out@) == spec_local_drives(disksv.take(idx as int)),
        decreases disks.len() - idx,
    {
        let ghost old_out = out@;
        proof {
            assert(disks@[idx as int]@ == disksv[idx as int]);
            assert(disksv.take(idx + 1).drop_last() =~= disksv.take(idx as int));
            assert(disksv.take(idx + 1).last() == disksv[idx as int]);
        }
        let d = duplicate_disk(&disks[idx]);
        let ghost dv = d@;
        out.push(Drive::Local(d));
        proof {
            assert(seq_views(out@) =~= seq_views(old_out).push(DriveV::Local(dv)));
            assert(seq_views(old_out).push(DriveV::Local(dv)) =~= seq_views(old_out) + seq![
                DriveV::Local(dv),
            ]);
            assert(seq_views(out@) =~= spec_local_drives(disksv.take(idx + 1)));
        }
        idx += 1;
    }
    proof {
        assert(disksv.take(disksv.len() as int) =~= disksv);
    }
    let mut j: usize = 0;
    proof {
        assert(netsv.take(0) =~= Seq::<NetworkDriveV>::empty());
        assert(seq_views(out@) + Seq::<DriveV>::empty() =~= seq_views(out@));
        assert(seq_views(out@) =~= spec_local_drives(disksv) + spec_net_drives(netsv.take(0)));
    }
    while j < nets.len()
        invariant
            0 <= j <= nets.len(),
            seq_views(nets@) == netsv,
            nets@.len() == netsv.len(),
            seq_views(out@) == spec_local_drives(disksv) + spec_net_drives(netsv.take(j as int)),
        decreases nets.len() - j,
    {
        let ghost old_out = out@;
        proof {
            assert(nets@[j as int]@ == netsv[j as int]);
            assert(netsv.take(j + 1).drop_last() =~= netsv.take(j as int));
            assert(netsv.take(j + 1).last() == netsv[j as int]);
        }
        let n = &nets[j];
        let nd = NetworkDrive {
            mount_point: n.mount_point.clone(),
            used_space: n.used_space,
            total_space: n.total_space,
        };
        let ghost nv = nd@;
        out.push(Drive::Network(nd));
        proof {
            assert(nv == netsv[j as int]);
            assert(seq_views(out@) =~= seq_views(old_out).push(DriveV::Network(nv)));
            assert(seq_views(out@) =~= spec_local_drives(disksv) + spec_net_drives(
                netsv.take(j + 1),
            ));
        }
        j += 1;
    }
    proof {
        assert(netsv.take(netsv.len() as int) =~= netsv);
    }
    out
}

/// Each local drive wraps the disk at its own index.
pub proof fn lemma_local_drives_index(disks: Seq<DiskInfoV>)
    ensures
        spec_local_drives(disks).len() == disks.len(),
        forall|i: int|
            0 <= i < disks.len() ==> spec_local_drives(disks)[i] == DriveV::Local(disks[i]),
    decreases disks.len(),
{
    if disks.len() > 0 {
        lemma_local_drives_index(disks.drop_last());
        assert(forall|i: int| 0 <= i < disks.len() - 1 ==> disks.drop_last()[i] == disks[i]);
    }
}

/// Each network drive wraps the record at its own index.
pub proof fn lemma_net_drives_index(nets: Seq<NetworkDriveV>)
    ensures
        spec_net_drives(nets).len() == nets.len(),
        forall|i: int| 0 <= i < nets.len() ==> spec_net_drives(nets)[i] == DriveV::Network(nets[i]),
    decreases nets.len(),
{
    if nets.len() > 0 {
        lemma_net_drives_index(nets.drop_last());
        assert(forall|i: int| 0 <= i < nets.len() - 1 ==> nets.drop_last()[i] == nets[i]);
    }
}

/// Each disk resolves the group at its own index.
pub proof fn lemma_disks_index(ds: Seq<DeviceRecordV>, groups: Seq<RootGroupV>)
    ensures
        spec_disks(ds, groups).len() == groups.len(),
        forall|g: int|
            0 <= g < groups.len() ==> spec_disks(ds, groups)[g] == spec_disk_for(ds, groups[g]),
    decreases groups.len(),
{
    if groups.len() > 0 {
        lemma_disks_index(ds, groups.drop_last());
        assert(forall|g: int| 0 <= g < groups.len() - 1 ==> groups.drop_last()[g] == groups[g]);
    }
}

/// Each group gathers the root at its own index.
pub proof fn lemma_groups_of_index(recs: Seq<PartRecV>, roots: Seq<Seq<char>>)
    ensures
        spec_groups_of(recs, roots).len() == roots.len(),
        forall|g: int|
            0 <= g < roots.len() ==> spec_groups_of(recs, roots)[g] == spec_group_for(
                recs,
                roots[g],
            ),
    decreases roots.len(),
{
    if roots.len() > 0 {
        lemma_groups_of_index(recs, roots.drop_last());
        assert(forall|g: int| 0 <= g < roots.len() - 1 ==> roots.drop_last()[g] == roots[g]);
    }
}

/// What holds of every partition record: its root and optical flag are
/// functions of its device node; its used space never exceeds its total;
/// an optical record is reported full; and a record whose statistics call
/// failed, on a non-optical device, reports zero space.
pub proof fn lemma_part_recs_props(
    ds: Seq<DeviceRecordV>,
    mounts: Seq<MountEntryV>,
    stats: Seq<MountStatV>,
)
    ensures
        forall|k: int|
            0 <= k < spec_part_recs(ds, mounts, stats).len() ==> {
                let rec = #[trigger] spec_part_recs(ds, mounts, stats)[k];
                &&& rec.root_dev == spec_root_device_of(rec.part.device)
                &&& rec.is_cdrom == spec_is_cdrom(rec.part.device)
                &&& rec.part.used_space <= rec.part.total_space
                &&& (rec.is_cdrom ==> rec.part.used_space == rec.part.total_space)
                &&& (!rec.is_cdrom && spec_stat_for(stats, rec.part.mount_point) is None
                    ==> rec.part.total_space == 0 && rec.part.used_space == 0)
            },
    decreases ds.len(),
{
    if ds.len() > 0 {
        lemma_part_recs_props(ds.drop_last(), mounts, stats);
        let prev = spec_part_recs(ds.drop_last(), mounts, stats);
        let cur = spec_part_recs(ds, mounts, stats);
        assert(forall|k: int| 0 <= k < prev.len() ==> cur[k] == prev[k]);
    }
}

/// Each slot of a root's partition list is the part of some record
/// carrying that root.
pub proof fn lemma_parts_with_root_exists(recs: Seq<PartRecV>, root: Seq<char>, j: int)
    requires
        0 <= j < spec_parts_with_root(recs, root).len(),
    ensures
        exists|k: int|
            0 <= k < recs.len() && (#[trigger] recs[k]).root_dev == root && recs[k].part
                == spec_parts_with_root(recs, root)[j],
    decreases recs.len(),
{
    let prev = spec_parts_with_root(recs.drop_last(), root);
    let cur = spec_parts_with_root(recs, root);
    assert(recs.len() > 0);
    assert(forall|k: int| 0 <= k < recs.len() - 1 ==> recs.drop_last()[k] == recs[k]);
    if j < prev.len() {
        lemma_parts_with_root_exists(recs.drop_last(), root, j);
        assert(cur[j] == prev[j]);
        let k = choose|k: int|
            0 <= k < recs.drop_last().len() && recs.drop_last()[k].root_dev == root
                && recs.drop_last()[k].part == prev[j];
        assert(recs[k].root_dev == root && recs[k].part == cur[j]);
    } else {
        assert(recs.last().root_dev == root);
        assert(cur[j] == recs[recs.len() - 1].part);
        assert(recs[recs.len() - 1].root_dev == root && recs[recs.len() - 1].part == cur[j]);
    }
}

/// The part of every record carrying `root` appears in that root's
/// partition list.
pub proof fn lemma_parts_with_root_mem(recs: Seq<PartRecV>, root: Seq<char>)
    ensures
        forall|k: int|
            0 <= k < recs.len() && (#[trigger] recs[k].root_dev) == root
                ==> spec_parts_with_root(recs, root).contains(recs[k].part),
    decreases recs.len(),
{
    if recs.len() > 0 {
        lemma_parts_with_root_mem(recs.drop_last(), root);
        let prev = spec_parts_with_root(recs.drop_last(), root);
        let cur = spec_parts_with_root(recs, root);
        assert(forall|k: int| 0 <= k < recs.len() - 1 ==> recs.drop_last()[k] == recs[k]);
        assert(forall|j: int| 0 <= j < prev.len() ==> cur[j] == prev[j]);
        if recs.last().root_dev == root {
            assert(cur[cur.len() - 1] == recs[recs.len() - 1].part);
            assert(cur.contains(recs[recs.len() - 1].part));
        }
        assert forall|k: int| 0 <= k < recs.len() && (#[trigger] recs[k].root_dev)
            == root implies cur.contains(recs[k].part) by {
            if k < recs.len() - 1 {
                assert(prev.contains(recs[k].part));
                let j = choose|j: int| 0 <= j < prev.len() && prev[j] == recs[k].part;
                assert(cur[j] == recs[k].part);
            }
        }
    }
}

/// For every partition of the resolved drive list, the used space never
/// exceeds the total, and a record whose statistics call failed on a
/// non-optical device reports both as zero; network drives obey the same
/// bound.
pub proof fn lemma_space_invariant(
    ds: Seq<DeviceRecordV>,
    mounts_text: Seq<char>,
    stats: Seq<MountStatV>,
)
    ensures
        forall|i: int|
            0 <= i < spec_scan_disks(ds, mounts_text, stats).len() ==> match #[trigger]
            spec_scan_disks(ds, mounts_text, stats)[i] {
                DriveV::Local(disk) => forall|j: int|
                    0 <= j < disk.partitions.len() ==> (#[trigger]
                    disk.partitions[j]).used_space <= disk.partitions[j].total_space,
                DriveV::Network(n) => n.used_space <= n.total_space,
            },
{
    let mounts = spec_parse_mounts(mounts_text);
    let dmounts = spec_device_mounts(mounts);
    let recs = spec_part_recs(ds, dmounts, stats);
    let roots = spec_roots(recs);
    let groups = spec_groups(recs);
    let disks = spec_disks(ds, groups);
    let nets = spec_network_drives(mounts, stats);
    let r = spec_scan_disks(ds, mounts_text, stats);
    lemma_part_recs_props(ds, dmounts, stats);
    lemma_groups_of_index(recs, roots);
    lemma_disks_index(ds, groups);
    lemma_local_drives_index(disks);
    lemma_net_drives_index(nets);
    lemma_nets_space(mounts, stats);
    assert forall|i: int| 0 <= i < r.len() implies match #[trigger] r[i] {
        DriveV::Local(disk) => forall|j: int|
            0 <= j < disk.partitions.len() ==> (#[trigger] disk.partitions[j]).used_space
                <= disk.partitions[j].total_space,
        DriveV::Network(n) => n.used_space <= n.total_space,
    } by {
        if i < disks.len() {
            assert(r[i] == DriveV::Local(disks[i]));
            let disk = disks[i];
            assert(disk == spec_disk_for(ds, groups[i]));
            assert forall|j: int| 0 <= j < disk.partitions.len() implies (#[trigger]
            disk.partitions[j]).used_space <= disk.partitions[j].total_space by {
                lemma_parts_with_root_exists(recs, roots[i], j);
                let k = choose|k: int|
                    0 <= k < recs.len() && recs[k].root_dev == roots[i] && recs[k].part
                        == disk.partitions[j];
                assert(recs[k].part.used_space <= recs[k].part.total_space);
            }
        } else {
            assert(r[i] == DriveV::Network(nets[i - disks.len()]));
        }
    }
}

/// Every network drive in the spec result respects the space bound.
proof fn lemma_nets_space(ms: Seq<MountEntryV>, stats: Seq<MountStatV>)
    ensures
        forall|k: int|
            0 <= k < spec_network_drives(ms, stats).len() ==> (#[trigger] spec_network_drives(
                ms,
                stats,
            )[k]).used_space <= spec_network_drives(ms, stats)[k].total_space,
    decreases ms.len(),
{
    if ms.len() > 0 {
        lemma_nets_space(ms.drop_last(), stats);
        let prev = spec_network_drives(ms.drop_last(), stats);
        let cur = spec_network_drives(ms, stats);
        assert(forall|k: int| 0 <= k < prev.len() ==> cur[k] == prev[k]);
    }
}

/// Optical-media partitions always report themselves full: any partition
/// of the resolved drive list whose device node carries an optical
/// designator has its used space equal to its total space.
pub proof fn lemma_optical_full(
    ds: Seq<DeviceRecordV>,
    mounts_text: Seq<char>,
    stats: Seq<MountStatV>,
)
    ensures
        forall|i: int|
            0 <= i < spec_scan_disks(ds, mounts_text, stats).len() ==> match #[trigger]
            spec_scan_disks(ds, mounts_text, stats)[i] {
                DriveV::Local(disk) => forall|j: int|
                    0 <= j < disk.partitions.len() && spec_is_cdrom(
                        (#[trigger] disk.partitions[j]).device,
                    ) ==> disk.partitions[j].used_space == disk.partitions[j].total_space,
                DriveV::Network(n) => true,
            },
{
    let mounts = spec_parse_mounts(mounts_text);
    let dmounts = spec_device_mounts(mounts);
    let recs = spec_part_recs(ds, dmounts, stats);
    let roots = spec_roots(recs);
    let groups = spec_groups(recs);
    let disks = spec_disks(ds, groups);
    let nets = spec_network_drives(mounts, stats);
    let r = spec_scan_disks(ds, mounts_text, stats);
    lemma_part_recs_props(ds, dmounts, stats);
    lemma_groups_of_index(recs, roots);
    lemma_disks_index(ds, groups);
    lemma_local_drives_index(disks);
    lemma_net_drives_index(nets);
    assert forall|i: int| 0 <= i < r.len() implies match #[trigger] r[i] {
        DriveV::Local(disk) => forall|j: int|
            0 <= j < disk.partitions.len() && spec_is_cdrom(
                (#[trigger] disk.partitions[j]).device,
            ) ==> disk.partitions[j].used_space == disk.partitions[j].total_space,
        DriveV::Network(n) => true,
    } by {
        if i < disks.len() {
            assert(r[i] == DriveV::Local(disks[i]));
            let disk = disks[i];
            assert(disk == spec_disk_for(ds, groups[i]));
            assert forall|j: int|
                0 <= j < disk.partitions.len() && spec_is_cdrom(
                    (#[trigger] disk.partitions[j]).device,
                ) implies disk.partitions[j].used_space == disk.partitions[j].total_space by {
                lemma_parts_with_root_exists(recs, roots[i], j);
                let k = choose|k: int|
                    0 <= k < recs.len() && recs[k].root_dev == roots[i] && recs[k].part
                        == disk.partitions[j];
                assert(recs[k].is_cdrom == spec_is_cdrom(recs[k].part.device));
            }
        } else {
            assert(r[i] == DriveV::Network(nets[i - disks.len()]));
        }
    }
}

/// The partition a drive list holds at disk `i`, slot `j`, if those
/// indices name one.
pub open spec fn spec_local_partition(r: Seq<DriveV>, i: int, j: int) -> Option<PartitionInfoV> {
    if 0 <= i < r.len() {
        match r[i] {
            DriveV::Local(d) => if 0 <= j < d.partitions.len() {
                Some(d.partitions[j])
            } else {
                None
            },
            DriveV::Network(_) => None,
        }
    } else {
        None
    }
}

/// Every device that passed the filters lands in exactly one disk: its
/// partition appears in some disk's list, and no device node appears in
/// the lists of two different disks.
#[verifier::rlimit(60)]
pub proof fn lemma_partition_of_one_disk(
    ds: Seq<DeviceRecordV>,
    mounts_text: Seq<char>,
    stats: Seq<MountStatV>,
)
    ensures
        ({
            let mounts = spec_parse_mounts(mounts_text);
            let recs = spec_part_recs(ds, spec_device_mounts(mounts), stats);
            let r = spec_scan_disks(ds, mounts_text, stats);
            &&& forall|k: int|
                0 <= k < recs.len() ==> exists|i: int, j: int|
                    spec_local_partition(r, i, j) == Some((#[trigger] recs[k]).part)
            &&& forall|i1: int, i2: int, j1: int, j2: int|
                i1 != i2 && (#[trigger] spec_local_partition(r, i1, j1)) is Some && (#[trigger]
                spec_local_partition(r, i2, j2)) is Some
                    ==> spec_local_partition(r, i1, j1)->0.device != spec_local_partition(
                    r,
                    i2,
                    j2,
                )->0.device
        }),
{
    let mounts = spec_parse_mounts(mounts_text);
    let dmounts = spec_device_mounts(mounts);
    let recs = spec_part_recs(ds, dmounts, stats);
    let roots = spec_roots(recs);
    let groups = spec_groups(recs);
    let disks = spec_disks(ds, groups);
    let nets = spec_network_drives(mounts, stats);
    let r = spec_scan_disks(ds, mounts_text, stats);
    lemma_part_recs_props(ds, dmounts, stats);
    lemma_roots(recs);
    lemma_groups_of_index(recs, roots);
    lemma_disks_index(ds, groups);
    lemma_local_drives_index(disks);
    lemma_net_drives_index(nets);

    // completeness: the record's root is one of the collected roots, and
    // that root's disk lists the record's partition
    assert forall|k: int| 0 <= k < recs.len() implies exists|i: int, j: int|
        spec_local_partition(r, i, j) == Some((#[trigger] recs[k]).part) by {
        assert(roots.contains(recs[k].root_dev));
        let g = choose|g: int| 0 <= g < roots.len() && roots[g] == recs[k].root_dev;
        lemma_parts_with_root_mem(recs, roots[g]);
        assert(spec_parts_with_root(recs, roots[g]).contains(recs[k].part));
        let j = choose|j: int|
            0 <= j < spec_parts_with_root(recs, roots[g]).len() && spec_parts_with_root(
                recs,
                roots[g],
            )[j] == recs[k].part;
        assert(r[g] == DriveV::Local(disks[g]));
        assert(disks[g].partitions == spec_parts_with_root(recs, roots[g]));
        assert(spec_local_partition(r, g, j) == Some(recs[k].part));
    }

    // disjointness: a device node determines its root, and the disks carry
    // distinct roots
    assert forall|i1: int, i2: int, j1: int, j2: int|
        i1 != i2 && (#[trigger] spec_local_partition(r, i1, j1)) is Some && (#[trigger]
        spec_local_partition(r, i2, j2)) is Some implies spec_local_partition(r, i1, j1)->0.device
        != spec_local_partition(r, i2, j2)->0.device by {
        assert(i1 < disks.len() || r[i1] == DriveV::Network(nets[i1 - disks.len()]));
        assert(i2 < disks.len() || r[i2] == DriveV::Network(nets[i2 - disks.len()]));
        assert(r[i1] == DriveV::Local(disks[i1]));
        assert(r[i2] == DriveV::Local(disks[i2]));
        lemma_parts_with_root_exists(recs, roots[i1], j1);
        lemma_parts_with_root_exists(recs, roots[i2], j2);
        let p1 = spec_local_partition(r, i1, j1)->0;
        let p2 = spec_local_partition(r, i2, j2)->0;
        assert(disks[i1].partitions[j1] == p1);
        assert(disks[i2].partitions[j2] == p2);
        let k1 = choose|k: int|
            0 <= k < recs.len() && recs[k].root_dev == roots[i1] && recs[k].part == p1;
        let k2 = choose|k: int|
            0 <= k < recs.len() && recs[k].root_dev == roots[i2] && recs[k].part == p2;
        assert(recs[k1].root_dev == spec_root_device_of(p1.device));
        assert(recs[k2].root_dev == spec_root_device_of(p2.device));
        assert(roots[i1] != roots[i2]);
    }
}

/// A field-for-field copy of a disk.
fn duplicate_disk(d: &DiskInfo) -> (r: DiskInfo)
    ensures
        r@ == d@,
{
    let r = DiskInfo {
        model: d.model.clone(),
        total_space: d.total_space,
        partitions: duplicate_parts(&d.partitions),
        is_cdrom: d.is_cdrom,
        icon_name: d.icon_name.clone(),
    };
    proof {
        assert(r@.partitions =~= d@.partitions);
    }
    r
}

} // verus!
