use cosmic_dust::devices::{
    icon_for, is_blacklisted, is_cdrom_device, is_root_node, model_for, root_device_of,
};
use cosmic_dust::disk::{scan_disks, Drive};
use cosmic_dust::mounts::{device_mounts, is_network_fs, parse_mounts};
use cosmic_dust::stats::{FsStat, MountStat};
use cosmic_dust::devices::DeviceRecord;

fn device(node: &str) -> DeviceRecord {
    DeviceRecord {
        devnode: Some(node.to_string()),
        size_sectors: None,
        drive_media: None,
        bus: None,
        fs_label: None,
        model: None,
        model_id: None,
    }
}

fn stat_entry(mp: &str, stat: Option<FsStat>) -> MountStat {
    MountStat { mount_point: mp.to_string(), stat }
}

#[test]
fn two_partitions_group_under_one_root() {
    let mut sda = device("/dev/sda");
    sda.model = Some("Samsung_SSD".to_string());
    let devices = vec![sda, device("/dev/sda1"), device("/dev/sda2")];
    let mounts = "/dev/sda1 / ext4 rw 0 0\n/dev/sda2 /home ext4 rw 0 0\n";
    let st = FsStat { block_size: 4096, blocks: 1000, blocks_free: 250 };
    let stats = vec![stat_entry("/", Some(st)), stat_entry("/home", Some(st))];

    let drives = scan_disks(&devices, mounts, &stats);
    assert_eq!(drives.len(), 1);
    match &drives[0] {
        Drive::Local(disk) => {
            assert_eq!(disk.partitions.len(), 2);
            assert_eq!(disk.partitions[0].device, "/dev/sda1");
            assert_eq!(disk.partitions[0].mount_point, "/");
            assert_eq!(disk.partitions[1].device, "/dev/sda2");
            assert_eq!(disk.partitions[1].mount_point, "/home");
            assert_eq!(disk.model, "Samsung SSD");
            assert!(!disk.is_cdrom);
            // each partition: 4096 * 1000 total, used = total - 4096 * 250
            assert_eq!(disk.partitions[0].total_space, 4096000);
            assert_eq!(disk.partitions[0].used_space, 3072000);
            // the disk sums its partitions
            assert_eq!(disk.total_space, 8192000);
        }
        Drive::Network(_) => panic!("expected a local disk"),
    }
}

#[test]
fn network_mount_yields_network_drive_only() {
    let devices: Vec<DeviceRecord> = Vec::new();
    let mounts = "server:/export /mnt/nfs nfs4 rw 0 0\n";
    let st = FsStat { block_size: 1024, blocks: 500, blocks_free: 100 };
    let stats = vec![stat_entry("/mnt/nfs", Some(st))];

    let drives = scan_disks(&devices, mounts, &stats);
    assert_eq!(drives.len(), 1);
    match &drives[0] {
        Drive::Network(n) => {
            assert_eq!(n.mount_point, "/mnt/nfs");
            assert_eq!(n.total_space, 512000);
            assert_eq!(n.used_space, 409600);
        }
        Drive::Local(_) => panic!("expected a network drive"),
    }
}

#[test]
fn network_mount_with_failed_stats_is_dropped() {
    let devices: Vec<DeviceRecord> = Vec::new();
    let mounts = "server:/export /mnt/nfs nfs4 rw 0 0\n";
    let stats = vec![stat_entry("/mnt/nfs", None)];
    let drives = scan_disks(&devices, mounts, &stats);
    assert_eq!(drives.len(), 0);
}

#[test]
fn failed_stats_report_zero_space() {
    let devices = vec![device("/dev/sdb"), device("/dev/sdb1")];
    let mounts = "/dev/sdb1 /mnt/disk ext4 rw 0 0\n";
    let stats: Vec<MountStat> = Vec::new();
    let drives = scan_disks(&devices, mounts, &stats);
    assert_eq!(drives.len(), 1);
    match &drives[0] {
        Drive::Local(disk) => {
            assert_eq!(disk.partitions.len(), 1);
            assert_eq!(disk.partitions[0].total_space, 0);
            assert_eq!(disk.partitions[0].used_space, 0);
            assert_eq!(disk.model, "Unknown Model");
        }
        Drive::Network(_) => panic!("expected a local disk"),
    }
}

#[test]
fn optical_media_report_full() {
    let mut sr0 = device("/dev/sr0");
    sr0.fs_label = Some("MY_DISC".to_string());
    let devices = vec![sr0];
    let mounts = "/dev/sr0 /media/cd iso9660 ro 0 0\n";
    let st = FsStat { block_size: 2048, blocks: 350000, blocks_free: 0 };
    let stats = vec![stat_entry("/media/cd", Some(st))];

    let drives = scan_disks(&devices, mounts, &stats);
    assert_eq!(drives.len(), 1);
    match &drives[0] {
        Drive::Local(disk) => {
            assert!(disk.is_cdrom);
            assert_eq!(disk.icon_name, "drive-optical");
            assert_eq!(disk.model, "MY DISC");
            assert_eq!(disk.partitions.len(), 1);
            assert_eq!(disk.partitions[0].total_space, 2048 * 350000);
            assert_eq!(disk.partitions[0].used_space, disk.partitions[0].total_space);
        }
        Drive::Network(_) => panic!("expected a local disk"),
    }
}

#[test]
fn optical_media_fall_back_to_sector_count() {
    let mut sr0 = device("/dev/sr0");
    sr0.size_sectors = Some("1000".to_string());
    let devices = vec![sr0];
    let mounts = "/dev/sr0 /media/cd iso9660 ro 0 0\n";
    let stats = vec![stat_entry("/media/cd", None)];

    let drives = scan_disks(&devices, mounts, &stats);
    match &drives[0] {
        Drive::Local(disk) => {
            assert_eq!(disk.partitions[0].total_space, 512000);
            assert_eq!(disk.partitions[0].used_space, 512000);
        }
        Drive::Network(_) => panic!("expected a local disk"),
    }
}

#[test]
fn unmounted_and_unknown_devices_are_skipped() {
    let devices = vec![
        device("/dev/sdc"),        // no mount
        device("/dev/zram0"),      // denylisted subsystem
        device("/dev/sdd1"),       // mounted, but with an unknown filesystem
        DeviceRecord {
            devnode: None,
            size_sectors: None,
            drive_media: None,
            bus: None,
            fs_label: None,
            model: None,
            model_id: None,
        },
    ];
    let mounts = "/dev/sdd1 /mnt/x unknown rw 0 0\n/dev/zram0 /zram swap 0 0\n";
    let stats: Vec<MountStat> = Vec::new();
    let drives = scan_disks(&devices, mounts, &stats);
    assert_eq!(drives.len(), 0);
}

#[test]
fn mount_point_octal_escape_is_undone_for_devices() {
    let parsed = parse_mounts("/dev/sda1 /mnt/my\\040disk ext4 rw 0 0\n");
    assert_eq!(parsed.len(), 1);
    assert_eq!(parsed[0].mount_point, "/mnt/my\\040disk");
    let dm = device_mounts(&parsed);
    assert_eq!(dm.len(), 1);
    assert_eq!(dm[0].mount_point, "/mnt/my disk");
    assert_eq!(dm[0].device, "/dev/sda1");
    assert_eq!(dm[0].file_system, "ext4");
}

#[test]
fn short_and_foreign_mount_lines_are_ignored_for_devices() {
    let parsed = parse_mounts("junk\nproc /proc proc rw 0 0\n/dev/sda1 / ext4 rw 0 0\n");
    assert_eq!(parsed.len(), 2);
    let dm = device_mounts(&parsed);
    assert_eq!(dm.len(), 1);
    assert_eq!(dm[0].device, "/dev/sda1");
}

#[test]
fn each_device_lands_in_exactly_one_disk() {
    let devices = vec![device("/dev/sda1"), device("/dev/sdb1"), device("/dev/sda2")];
    let mounts = "/dev/sda1 / ext4 rw 0 0\n/dev/sdb1 /mnt/b ext4 rw 0 0\n/dev/sda2 /home ext4 rw 0 0\n";
    let st = FsStat { block_size: 512, blocks: 100, blocks_free: 10 };
    let stats = vec![
        stat_entry("/", Some(st)),
        stat_entry("/mnt/b", Some(st)),
        stat_entry("/home", Some(st)),
    ];
    let drives = scan_disks(&devices, mounts, &stats);
    assert_eq!(drives.len(), 2);
    let mut seen: Vec<String> = Vec::new();
    for drive in &drives {
        match drive {
            Drive::Local(disk) => {
                for p in &disk.partitions {
                    assert!(!seen.contains(&p.device), "device listed twice");
                    seen.push(p.device.clone());
                }
            }
            Drive::Network(_) => panic!("expected local disks only"),
        }
    }
    seen.sort();
    assert_eq!(seen, vec!["/dev/sda1", "/dev/sda2", "/dev/sdb1"]);
}

#[test]
fn network_filesystem_names() {
    assert!(is_network_fs("nfs"));
    assert!(is_network_fs("nfs4"));
    assert!(is_network_fs("cifs"));
    assert!(is_network_fs("smbfs"));
    assert!(!is_network_fs("ext4"));
    assert!(!is_network_fs("btrfs"));
}

#[test]
fn root_device_naming_conventional() {
    assert!(is_root_node("/dev/sda"));
    assert!(!is_root_node("/dev/sda1"));
    assert_eq!(root_device_of("/dev/sda"), "/dev/sda");
    assert_eq!(root_device_of("/dev/sda1"), "/dev/sda");
    assert_eq!(root_device_of("/dev/vdb12"), "/dev/vdb");
}

#[test]
fn root_device_naming_nvme() {
    assert!(is_root_node("/dev/nvme0n1"));
    assert!(!is_root_node("/dev/nvme0n1p2"));
    assert_eq!(root_device_of("/dev/nvme0n1p2"), "/dev/nvme0n1");
    assert_eq!(root_device_of("/dev/nvme0n1"), "/dev/nvme0n1");
}

#[test]
fn root_device_naming_optical() {
    assert!(is_cdrom_device("/dev/sr0"));
    assert!(is_cdrom_device("/dev/cdrom"));
    assert!(!is_cdrom_device("/dev/sda1"));
    // optical nodes are always whole disks, trailing digit or not
    assert!(is_root_node("/dev/sr0"));
    assert_eq!(root_device_of("/dev/sr0"), "/dev/sr0");
}

#[test]
fn denylisted_nodes() {
    assert!(is_blacklisted("/dev/zram0"));
    assert!(is_blacklisted("/dev/snd/pcmC0D0p"));
    assert!(is_blacklisted("/dev/dri/drm0"));
    assert!(is_blacklisted("/dev/cpu/0/msr"));
    assert!(is_blacklisted("/dev/hidraw0"));
    assert!(!is_blacklisted("/dev/sda"));
}

#[test]
fn icons_follow_media_and_bus() {
    assert_eq!(icon_for(true, &None, &None), "drive-optical");
    assert_eq!(icon_for(false, &Some("solidstate".to_string()), &None), "drive-harddisk-solidstate");
    assert_eq!(icon_for(false, &Some("disk".to_string()), &None), "drive-harddisk");
    assert_eq!(icon_for(false, &Some("flash".to_string()), &None), "drive-removable-media");
    assert_eq!(icon_for(false, &Some("usb".to_string()), &None), "drive-removable-media");
    assert_eq!(icon_for(false, &Some("floppy".to_string()), &None), "drive-floppy");
    assert_eq!(icon_for(false, &None, &Some("usb".to_string())), "drive-removable-media");
    assert_eq!(icon_for(false, &None, &Some("pci".to_string())), "drive-harddisk");
    assert_eq!(icon_for(false, &None, &None), "drive-harddisk");
}

#[test]
fn model_resolution_prefers_label_for_optical() {
    let mut d = device("/dev/sr0");
    d.fs_label = Some("HOLIDAY_PHOTOS".to_string());
    d.model = Some("DVD_Drive".to_string());
    let devices = vec![d];
    assert_eq!(model_for(&devices, "/dev/sr0", true), "HOLIDAY PHOTOS");
    assert_eq!(model_for(&devices, "/dev/sr0", false), "DVD Drive");
    assert_eq!(model_for(&devices, "/dev/sdz", false), "Unknown Model");

    let mut bare = device("/dev/sr1");
    bare.model_id = Some("0x5678".to_string());
    let devices2 = vec![bare];
    assert_eq!(model_for(&devices2, "/dev/sr1", false), "0x5678");
    assert_eq!(model_for(&devices2, "/dev/sr1", true), "Unknown Disc");
}
