//! Block devices as the OS device registry reports them: the device node
//! path and the handful of properties the resolver reads. The naming
//! heuristics that tell a whole-disk root device from one of its partitions
//! live here, isolated as pure functions: conventional devices end their
//! partitions in digits, NVMe devices use a `p<N>` suffix, and optical
//! devices are always whole disks.

use vstd::prelude::*;
use vstd::string::*;
use crate::text::{
    contains_substr, digit, is_digit, opt_view, spec_contains, spec_underscores_to_spaces, str_eq,
    underscores_to_spaces,
};

verus! {

/// One enumerated block device: its node path and the properties the
/// resolver reads, each absent when the registry does not report it.
#[derive(Debug)]
pub struct DeviceRecord {
    /// The device node path, e.g. `/dev/sda1`.
    pub devnode: Option<String>,
    /// The raw device size in 512-byte sectors, as a decimal string.
    pub size_sectors: Option<String>,
    /// The drive media kind: `solidstate`, `disk`, `flash`, `usb`, `floppy`.
    pub drive_media: Option<String>,
    /// The bus the device hangs off, e.g. `usb`.
    pub bus: Option<String>,
    /// The filesystem label, used to title optical media.
    pub fs_label: Option<String>,
    /// The model name.
    pub model: Option<String>,
    /// The model identifier, a fallback for the model name.
    pub model_id: Option<String>,
}

/// The mathematical content of a `DeviceRecord`.
pub struct DeviceRecordV {
    pub devnode: Option<Seq<char>>,
    pub size_sectors: Option<Seq<char>>,
    pub drive_media: Option<Seq<char>>,
    pub bus: Option<Seq<char>>,
    pub fs_label: Option<Seq<char>>,
    pub model: Option<Seq<char>>,
    pub model_id: Option<Seq<char>>,
}

impl View for DeviceRecord {
    type V = DeviceRecordV;

    open spec fn view(&self) -> DeviceRecordV {
        DeviceRecordV {
            devnode: opt_view(self.devnode),
            size_sectors: opt_view(self.size_sectors),
            drive_media: opt_view(self.drive_media),
            bus: opt_view(self.bus),
            fs_label: opt_view(self.fs_label),
            model: opt_view(self.model),
            model_id: opt_view(self.model_id),
        }
    }
}

/// Node names that belong to non-storage subsystems: compressed memory,
/// sound, graphics, CPU and human-interface devices.
pub open spec fn spec_is_blacklisted(dev: Seq<char>) -> bool {
    spec_contains(dev, "zram"@) || spec_contains(dev, "snd"@) || spec_contains(dev, "drm"@)
        || spec_contains(dev, "cpu"@) || spec_contains(dev, "hid"@)
}

pub fn is_blacklisted(dev: &str) -> (r: bool)
    ensures
        r == spec_is_blacklisted(dev@),
{
    contains_substr(dev, "zram") || contains_substr(dev, "snd") || contains_substr(dev, "drm")
        || contains_substr(dev, "cpu") || contains_substr(dev, "hid")
}

/// Optical media carry an optical-drive designator in their node name.
pub open spec fn spec_is_cdrom(dev: Seq<char>) -> bool {
    spec_contains(dev, "sr"@) || spec_contains(dev, "cdrom"@)
}

pub fn is_cdrom_device(dev: &str) -> (r: bool)
    ensures
        r == spec_is_cdrom(dev@),
{
    contains_substr(dev, "sr") || contains_substr(dev, "cdrom")
}

/// The index of the first occurrence of `c` in `s`, if any.
pub open spec fn spec_char_index(s: Seq<char>, c: char) -> Option<int>
    decreases s.len(),
{
    if s.len() == 0 {
        None
    } else if s[0] == c {
        Some(0)
    } else {
        match spec_char_index(s.skip(1), c) {
            Some(i) => Some(i + 1),
            None => None,
        }
    }
}

pub proof fn lemma_char_index(s: Seq<char>, c: char)
    ensures
        match spec_char_index(s, c) {
            Some(i) => 0 <= i < s.len() && s[i] == c && forall|k: int| 0 <= k < i ==> s[k] != c,
            None => forall|k: int| 0 <= k < s.len() ==> s[k] != c,
        },
    decreases s.len(),
{
    if s.len() > 0 && s[0] != c {
        lemma_char_index(s.skip(1), c);
        assert(forall|k: int| 1 <= k < s.len() ==> s[k] == s.skip(1)[k - 1]);
    }
}

pub fn char_index_of_first(s: &str, c: char) -> (r: Option<usize>)
    ensures
        r matches Some(i) ==> i < s@.len() && spec_char_index(s@, c) == Some(i as int),
        r is None ==> spec_char_index(s@, c) is None,
{
    proof {
        lemma_char_index(s@, c);
    }
    let len = s.unicode_len();
    let mut i: usize = 0;
    while i < len
        invariant
            0 <= i <= len,
            len == s@.len(),
            forall|k: int| 0 <= k < i ==> s@[k] != c,
        decreases len - i,
    {
        if s.get_char(i) == c {
            proof {
                lemma_char_index(s@, c);
            }
            return Some(i);
        }
        i += 1;
    }
    proof {
        lemma_char_index(s@, c);
    }
    None
}

/// The index of the last occurrence of `c` in `s`, if any.
pub open spec fn spec_char_rindex(s: Seq<char>, c: char) -> Option<int>
    decreases s.len(),
{
    if s.len() == 0 {
        None
    } else if s.last() == c {
        Some(s.len() - 1)
    } else {
        spec_char_rindex(s.drop_last(), c)
    }
}

pub proof fn lemma_char_rindex(s: Seq<char>, c: char)
    ensures
        match spec_char_rindex(s, c) {
            Some(i) => 0 <= i < s.len() && s[i] == c && forall|k: int| i < k < s.len() ==> s[k]
                != c,
            None => forall|k: int| 0 <= k < s.len() ==> s[k] != c,
        },
    decreases s.len(),
{
    if s.len() > 0 && s.last() != c {
        lemma_char_rindex(s.drop_last(), c);
        assert(forall|k: int| 0 <= k < s.len() - 1 ==> s.drop_last()[k] == s[k]);
    }
}

pub fn char_index_of_last(s: &str, c: char) -> (r: Option<usize>)
    ensures
        r matches Some(i) ==> i < s@.len() && spec_char_rindex(s@, c) == Some(i as int),
        r is None ==> spec_char_rindex(s@, c) is None,
{
    proof {
        lemma_char_rindex(s@, c);
    }
    let len = s.unicode_len();
    let mut i: usize = len;
    while i > 0
        invariant
            0 <= i <= len,
            len == s@.len(),
            forall|k: int| i <= k < len ==> s@[k] != c,
        decreases i,
    {
        i -= 1;
        if s.get_char(i) == c {
            proof {
                lemma_char_rindex(s@, c);
            }
            return Some(i);
        }
    }
    proof {
        lemma_char_rindex(s@, c);
    }
    None
}

/// `s` with every trailing decimal digit removed.
pub open spec fn spec_strip_trailing_digits(s: Seq<char>) -> Seq<char>
    decreases s.len(),
{
    if s.len() > 0 && is_digit(s.last()) {
        spec_strip_trailing_digits(s.drop_last())
    } else {
        s
    }
}

pub fn strip_trailing_digits(s: &str) -> (r: String)
    ensures
        r@ == spec_strip_trailing_digits(s@),
{
    let len = s.unicode_len();
    let mut k: usize = len;
    proof {
        assert(s@.take(len as int) =~= s@);
    }
    while k > 0 && digit(s.get_char(k - 1))
        invariant
            0 <= k <= len,
            len == s@.len(),
            spec_strip_trailing_digits(s@) == spec_strip_trailing_digits(s@.take(k as int)),
        decreases k,
    {
        proof {
            assert(s@.take(k as int).last() == s@[k - 1]);
            assert(s@.take(k as int).drop_last() =~= s@.take(k - 1));
        }
        k -= 1;
    }
    let r = s.substring_char(0, k).to_owned();
    proof {
        if k > 0 {
            assert(s@.take(k as int).last() == s@[k - 1]);
        }
        assert(r@ =~= s@.take(k as int));
    }
    r
}

/// The node name after the last path separator.
pub open spec fn spec_last_component(dev: Seq<char>) -> Seq<char> {
    match spec_char_rindex(dev, '/') {
        Some(i) => dev.skip(i + 1),
        None => dev,
    }
}

/// Whether a node path names a whole-disk root device rather than a
/// partition: NVMe nodes are partitions exactly when they carry the `p`
/// delimiter, optical nodes are always roots, and any other node is a root
/// unless its trailing character is a digit.
pub open spec fn spec_is_root_node(dev: Seq<char>) -> bool {
    if spec_contains(dev, "nvme"@) {
        !spec_contains(dev, "p"@)
    } else if spec_is_cdrom(dev) {
        true
    } else {
        dev.len() == 0 || !is_digit(dev.last())
    }
}

pub fn is_root_node(dev: &str) -> (r: bool)
    ensures
        r == spec_is_root_node(dev@),
{
    let len = s_len(dev);
    if contains_substr(dev, "nvme") {
        !contains_substr(dev, "p")
    } else if is_cdrom_device(dev) {
        true
    } else {
        len == 0 || !digit(dev.get_char(len - 1))
    }
}

fn s_len(s: &str) -> (r: usize)
    ensures
        r == s@.len(),
{
    s.unicode_len()
}

/// The root device a node belongs to: the node itself for a root; the part
/// before the `p` delimiter for an NVMe partition; and the node's base name
/// with its trailing digits stripped, back under `/dev/`, otherwise.
pub open spec fn spec_root_device_of(dev: Seq<char>) -> Seq<char> {
    if spec_is_root_node(dev) {
        dev
    } else if spec_contains(dev, "nvme"@) {
        match spec_char_index(dev, 'p') {
            Some(i) => dev.take(i),
            None => dev,
        }
    } else {
        "/dev/"@ + spec_strip_trailing_digits(spec_last_component(dev))
    }
}

pub fn root_device_of(dev: &str) -> (r: String)
    ensures
        r@ == spec_root_device_of(dev@),
{
    if is_root_node(dev) {
        return dev.to_owned();
    }
    if contains_substr(dev, "nvme") {
        match char_index_of_first(dev, 'p') {
            Some(i) => {
                return dev.substring_char(0, i).to_owned();
            },
            None => {
                return dev.to_owned();
            },
        }
    }
    let base = match char_index_of_last(dev, '/') {
        Some(i) => {
            proof {
                lemma_char_rindex(dev@, '/');
            }
            let n = s_len(dev);
            dev.substring_char(i + 1, n)
        },
        None => dev,
    };
    proof {
        assert(base@ =~= spec_last_component(dev@));
    }
    let stripped = strip_trailing_digits(base);
    let prefix: String = "/dev/".to_owned();
    let r = prefix.concat(stripped.as_str());
    proof {
        assert(r@ == "/dev/"@ + spec_strip_trailing_digits(spec_last_component(dev@)));
    }
    r
}

/// The icon that the bus alone suggests: removable media on USB, a plain
/// hard disk otherwise.
pub open spec fn spec_bus_icon(bus: Option<Seq<char>>) -> Seq<char> {
    match bus {
        Some(b) => if b == "usb"@ {
            "drive-removable-media"@
        } else {
            "drive-harddisk"@
        },
        None => "drive-harddisk"@,
    }
}

/// The icon classification of a device: optical media override everything;
/// otherwise the drive-media property decides, with the bus as fallback.
pub open spec fn spec_icon_for(
    is_cdrom: bool,
    media: Option<Seq<char>>,
    bus: Option<Seq<char>>,
) -> Seq<char> {
    if is_cdrom {
        "drive-optical"@
    } else {
        match media {
            Some(m) => if m == "solidstate"@ {
                "drive-harddisk-solidstate"@
            } else if m == "disk"@ {
                "drive-harddisk"@
            } else if m == "flash"@ || m == "usb"@ {
                "drive-removable-media"@
            } else if m == "floppy"@ {
                "drive-floppy"@
            } else {
                spec_bus_icon(bus)
            },
            None => spec_bus_icon(bus),
        }
    }
}

fn bus_icon(bus: &Option<String>) -> (r: String)
    ensures
        r@ == spec_bus_icon(opt_view(*bus)),
{
    match bus {
        Some(b) => {
            if str_eq(b.as_str(), "usb") {
                "drive-removable-media".to_owned()
            } else {
                "drive-harddisk".to_owned()
            }
        },
        None => "drive-harddisk".to_owned(),
    }
}

pub fn icon_for(is_cdrom: bool, media: &Option<String>, bus: &Option<String>) -> (r: String)
    ensures
        r@ == spec_icon_for(is_cdrom, opt_view(*media), opt_view(*bus)),
{
    if is_cdrom {
        return "drive-optical".to_owned();
    }
    match media {
        Some(m) => {
            if str_eq(m.as_str(), "solidstate") {
                "drive-harddisk-solidstate".to_owned()
            } else if str_eq(m.as_str(), "disk") {
                "drive-harddisk".to_owned()
            } else if str_eq(m.as_str(), "flash") || str_eq(m.as_str(), "usb") {
                "drive-removable-media".to_owned()
            } else if str_eq(m.as_str(), "floppy") {
                "drive-floppy".to_owned()
            } else {
                bus_icon(bus)
            }
        },
        None => bus_icon(bus),
    }
}

/// The first device whose node path equals `node`.
pub open spec fn spec_find_device(ds: Seq<DeviceRecordV>, node: Seq<char>) -> Option<DeviceRecordV>
    decreases ds.len(),
{
    if ds.len() == 0 {
        None
    } else if ds[0].devnode == Some(node) {
        Some(ds[0])
    } else {
        spec_find_device(ds.skip(1), node)
    }
}

/// The index of the first device whose node path equals `node`.
pub fn find_device_index(ds: &Vec<DeviceRecord>, node: &str) -> (r: Option<usize>)
    ensures
        (r is Some) == (spec_find_device(crate::text::seq_views(ds@), node@) is Some),
        r matches Some(i) ==> i < ds@.len() && Some(ds@[i as int]@) == spec_find_device(
            crate::text::seq_views(ds@),
            node@,
        ),
{
    let ghost dsv = crate::text::seq_views(ds@);
    let mut i: usize = 0;
    proof {
        assert(dsv.skip(0) =~= dsv);
    }
    while i < ds.len()
        invariant
            0 <= i <= ds.len(),
            crate::text::seq_views(ds@) == dsv,
            ds@.len() == dsv.len(),
            spec_find_device(dsv, node@) == spec_find_device(dsv.skip(i as int), node@),
        decreases ds.len() - i,
    {
        proof {
            assert(ds@[i as int]@ == dsv[i as int]);
            assert(dsv.skip(i as int)[0] == dsv[i as int]);
            assert(dsv.skip(i as int).skip(1) =~= dsv.skip(i + 1));
        }
        let hit = match &ds[i].devnode {
            Some(n) => str_eq(n.as_str(), node),
            None => false,
        };
        if hit {
            return Some(i);
        }
        i += 1;
    }
    proof {
        assert(dsv.skip(dsv.len() as int) =~= Seq::<DeviceRecordV>::empty());
    }
    None
}

/// The display title of the disk rooted at `root`: the first device whose
/// node equals the root path supplies it. Optical media prefer their
/// filesystem label; every device falls back through its model fields, with
/// underscores shown as spaces; a root with no matching device keeps the
/// default title.
pub open spec fn spec_model_for(
    ds: Seq<DeviceRecordV>,
    root: Seq<char>,
    is_cdrom: bool,
) -> Seq<char> {
    match spec_find_device(ds, root) {
        None => "Unknown Model"@,
        Some(d) => if is_cdrom {
            match d.fs_label {
                Some(l) => spec_underscores_to_spaces(l),
                None => match d.model {
                    Some(m) => spec_underscores_to_spaces(m),
                    None => "Unknown Disc"@,
                },
            }
        } else {
            match d.model {
                Some(m) => spec_underscores_to_spaces(m),
                None => match d.model_id {
                    Some(mi) => spec_underscores_to_spaces(mi),
                    None => "Unknown Model"@,
                },
            }
        },
    }
}

pub fn model_for(ds: &Vec<DeviceRecord>, root: &str, is_cdrom: bool) -> (r: String)
    ensures
        r@ == spec_model_for(crate::text::seq_views(ds@), root@, is_cdrom),
{
    match find_device_index(ds, root) {
        None => "Unknown Model".to_owned(),
        Some(i) => {
            let d = &ds[i];
            if is_cdrom {
                match &d.fs_label {
                    Some(l) => underscores_to_spaces(l.as_str()),
                    None => match &d.model {
                        Some(m) => underscores_to_spaces(m.as_str()),
                        None => "Unknown Disc".to_owned(),
                    },
                }
            } else {
                match &d.model {
                    Some(m) => underscores_to_spaces(m.as_str()),
                    None => match &d.model_id {
                        Some(mi) => underscores_to_spaces(mi.as_str()),
                        None => "Unknown Model".to_owned(),
                    },
                }
            }
        },
    }
}

} // verus!
