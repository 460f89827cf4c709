//! The live mount table: newline-delimited, whitespace-separated records of
//! (device, mount point, filesystem type). Mount points escape embedded
//! spaces as `\040`; the records matched against block devices get that
//! escape undone, while the network-drive pass reads the fields as they are.

use vstd::prelude::*;
use crate::text::{
    seq_views, spec_fields, spec_lines, spec_starts_with, spec_unescape, split_fields, split_lines,
    starts_with_str, str_eq, unescape_octal_spaces,
};

verus! {

/// One record of the mount table.
#[derive(Debug)]
pub struct MountEntry {
    pub device: String,
    pub mount_point: String,
    pub file_system: String,
}

/// The mathematical content of a `MountEntry`.
pub struct MountEntryV {
    pub device: Seq<char>,
    pub mount_point: Seq<char>,
    pub file_system: Seq<char>,
}

impl View for MountEntry {
    type V = MountEntryV;

    open spec fn view(&self) -> MountEntryV {
        MountEntryV {
            device: self.device@,
            mount_point: self.mount_point@,
            file_system: self.file_system@,
        }
    }
}

impl MountEntry {
    /// A field-for-field copy.
    pub fn duplicate(&self) -> (r: MountEntry)
        ensures
            r@ == self@,
    {
        MountEntry {
            device: self.device.clone(),
            mount_point: self.mount_point.clone(),
            file_system: self.file_system.clone(),
        }
    }
}

/// A line of the mount table read as a record: its first three
/// whitespace-separated fields, if it has that many.
pub open spec fn spec_mount_line(line: Seq<char>) -> Option<MountEntryV> {
    let fs = spec_fields(line);
    if fs.len() >= 3 {
        Some(MountEntryV { device: fs[0], mount_point: fs[1], file_system: fs[2] })
    } else {
        None
    }
}

/// The records of a sequence of lines: every line with at least three
/// fields, in order.
pub open spec fn spec_mount_records(lns: Seq<Seq<char>>) -> Seq<MountEntryV>
    decreases lns.len(),
{
    if lns.len() == 0 {
        Seq::empty()
    } else {
        spec_mount_records(lns.drop_last()) + match spec_mount_line(lns.last()) {
            Some(e) => seq![e],
            None => Seq::empty(),
        }
    }
}

/// The records of the whole mount table text.
pub open spec fn spec_parse_mounts(text: Seq<char>) -> Seq<MountEntryV> {
    spec_mount_records(spec_lines(text))
}

/// Parse the whole mount table text into records.
pub fn parse_mounts(text: &str) -> (r: Vec<MountEntry>)
    ensures
        seq_views(r@) == spec_parse_mounts(text@),
{
    let lines = split_lines(text);
    let ghost lns = spec_lines(text@);
    let mut out: Vec<MountEntry> = Vec::new();
    let mut j: usize = 0;
    proof {
        assert(lns.take(0) =~= Seq::<Seq<char>>::empty());
        assert(seq_views(out@) =~= spec_mount_records(lns.take(0)));
    }
    while j < lines.len()
        invariant
            0 <= j <= lines.len(),
            seq_views(lines@) == lns,
            lines@.len() == lns.len(),
            seq_views(out@) == spec_mount_records(lns.take(j as int)),
        decreases lines.len() - j,
    {
        let ghost old_out = out@;
        let fields = split_fields(lines[j].as_str());
        proof {
            assert(lines@[j as int]@ == lns[j as int]);
            assert(lns.take(j + 1).drop_last() =~= lns.take(j as int));
            assert(lns.take(j + 1).last() == lns[j as int]);
        }
        if fields.len() >= 3 {
            let e = MountEntry {
                device: fields[0].clone(),
                mount_point: fields[1].clone(),
                file_system: fields[2].clone(),
            };
            let ghost ev = e@;
            proof {
                let fv = spec_fields(lns[j as int]);
                assert(fields@[0]@ == fv[0] && fields@[1]@ == fv[1] && fields@[2]@ == fv[2]);
                assert(spec_mount_line(lns[j as int]) == Some(ev));
            }
            out.push(e);
            proof {
                assert(seq_views(out@) =~= seq_views(old_out).push(ev));
                assert(seq_views(old_out).push(ev) =~= seq_views(old_out) + seq![ev]);
                assert(seq_views(out@) =~= spec_mount_records(lns.take(j + 1)));
            }
        } else {
            proof {
                assert(spec_mount_line(lns[j as int]) is None);
                assert(seq_views(out@) + Seq::<MountEntryV>::empty() =~= seq_views(out@));
                assert(seq_views(out@) =~= spec_mount_records(lns.take(j + 1)));
            }
        }
        j += 1;
    }
    proof {
        assert(lns.take(lns.len() as int) =~= lns);
    }
    out
}

/// What a record matched against block devices looks like: the mount point
/// with the octal space escape undone.
pub open spec fn spec_unescaped_entry(m: MountEntryV) -> MountEntryV {
    MountEntryV {
        device: m.device,
        mount_point: spec_unescape(m.mount_point),
        file_system: m.file_system,
    }
}

/// The records whose device node lives under `/dev/`, with their mount
/// points unescaped: the records a block device can match.
pub open spec fn spec_device_mounts(ms: Seq<MountEntryV>) -> Seq<MountEntryV>
    decreases ms.len(),
{
    if ms.len() == 0 {
        Seq::empty()
    } else {
        spec_device_mounts(ms.drop_last()) + if spec_starts_with(ms.last().device, "/dev/"@) {
            seq![spec_unescaped_entry(ms.last())]
        } else {
            Seq::empty()
        }
    }
}

pub fn device_mounts(ms: &Vec<MountEntry>) -> (r: Vec<MountEntry>)
    ensures
        seq_views(r@) == spec_device_mounts(seq_views(ms@)),
{
    let ghost msv = seq_views(ms@);
    let mut out: Vec<MountEntry> = Vec::new();
    let mut i: usize = 0;
    proof {
        assert(msv.take(0) =~= Seq::<MountEntryV>::empty());
        assert(seq_views(out@) =~= spec_device_mounts(msv.take(0)));
    }
    while i < ms.len()
        invariant
            0 <= i <= ms.len(),
            seq_views(ms@) == msv,
            ms@.len() == msv.len(),
            seq_views(out@) == spec_device_mounts(msv.take(i as int)),
        decreases ms.len() - i,
    {
        let ghost old_out = out@;
        proof {
            assert(ms@[i as int]@ == msv[i as int]);
            assert(msv.take(i + 1).drop_last() =~= msv.take(i as int));
            assert(msv.take(i + 1).last() == msv[i as int]);
        }
        if starts_with_str(ms[i].device.as_str(), "/dev/") {
            let e = MountEntry {
                device: ms[i].device.clone(),
                mount_point: unescape_octal_spaces(ms[i].mount_point.as_str()),
                file_system: ms[i].file_system.clone(),
            };
            let ghost ev = e@;
            proof {
                assert(ev == spec_unescaped_entry(msv[i as int]));
            }
            out.push(e);
            proof {
                assert(seq_views(out@) =~= seq_views(old_out).push(ev));
                assert(seq_views(old_out).push(ev) =~= seq_views(old_out) + seq![ev]);
                assert(seq_views(out@) =~= spec_device_mounts(msv.take(i + 1)));
            }
        } else {
            proof {
                assert(seq_views(out@) + Seq::<MountEntryV>::empty() =~= seq_views(out@));
                assert(seq_views(out@) =~= spec_device_mounts(msv.take(i + 1)));
            }
        }
        i += 1;
    }
    proof {
        assert(msv.take(msv.len() as int) =~= msv);
    }
    out
}

/// A filesystem type names a network protocol: the NFS family, CIFS or SMBFS.
pub open spec fn spec_is_network_fs(fs: Seq<char>) -> bool {
    spec_starts_with(fs, "nfs"@) || fs == "cifs"@ || fs == "smbfs"@
}

pub fn is_network_fs(fs: &str) -> (r: bool)
    ensures
        r == spec_is_network_fs(fs@),
{
    starts_with_str(fs, "nfs") || str_eq(fs, "cifs") || str_eq(fs, "smbfs")
}

/// The first record whose device field equals `dev`.
pub open spec fn spec_find_mount(ms: Seq<MountEntryV>, dev: Seq<char>) -> Option<MountEntryV>
    decreases ms.len(),
{
    if ms.len() == 0 {
        None
    } else if ms[0].device == dev {
        Some(ms[0])
    } else {
        spec_find_mount(ms.skip(1), dev)
    }
}

pub fn find_mount(ms: &Vec<MountEntry>, dev: &str) -> (r: Option<MountEntry>)
    ensures
        (r is Some) == (spec_find_mount(seq_views(ms@), dev@) is Some),
        r matches Some(e) ==> Some(e@) == spec_find_mount(seq_views(ms@), dev@),
{
    let ghost msv = seq_views(ms@);
    let mut i: usize = 0;
    proof {
        assert(msv.skip(0) =~= msv);
    }
    while i < ms.len()
        invariant
            0 <= i <= ms.len(),
            seq_views(ms@) == msv,
            ms@.len() == msv.len(),
            spec_find_mount(msv, dev@) == spec_find_mount(msv.skip(i as int), dev@),
        decreases ms.len() - i,
    {
        proof {
            assert(ms@[i as int]@ == msv[i as int]);
            assert(msv.skip(i as int)[0] == msv[i as int]);
            assert(msv.skip(i as int).skip(1) =~= msv.skip(i + 1));
        }
        if str_eq(ms[i].device.as_str(), dev) {
            let e = ms[i].duplicate();
            assert(e@ == msv[i as int]);
            return Some(e);
        }
        i += 1;
    }
    proof {
        assert(msv.skip(msv.len() as int) =~= Seq::<MountEntryV>::empty());
    }
    None
}

} // verus!
