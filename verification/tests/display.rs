use cosmic_dust::crawler::FileEntry;
use cosmic_dust::disk::{DiskInfo, Drive, NetworkDrive, PartitionInfo};
use cosmic_dust::files::{sort_entries_desc, Files};
use cosmic_dust::partition::{total_space_of, used_space_of, DiskState};
use cosmic_dust::sizes::format_size;
use cosmic_dust::text::parse_u64_or_zero;

fn entry(path: &str, size: u64, is_dir: bool) -> FileEntry {
    FileEntry { path: path.to_string(), size, is_dir }
}

fn partition(device: &str, total: u64, used: u64) -> PartitionInfo {
    PartitionInfo {
        device: device.to_string(),
        mount_point: "/".to_string(),
        total_space: total,
        used_space: used,
        file_system: "ext4".to_string(),
    }
}

#[test]
fn format_size_exact_values() {
    assert_eq!(format_size(0), "0.00 B");
    assert_eq!(format_size(123), "123.00 B");
    assert_eq!(format_size(1023), "1023.00 B");
    assert_eq!(format_size(1024), "1.00 KB");
    assert_eq!(format_size(1536), "1.50 KB");
    assert_eq!(format_size(1075), "1.05 KB");
    assert_eq!(format_size(10 * 1024 * 1024), "10.00 MB");
    assert_eq!(format_size(10 * 1024 * 1024 * 1024), "10.00 GB");
    assert_eq!(format_size(1024u64.pow(4)), "1.00 TB");
    assert_eq!(format_size(3 * 1024u64.pow(5) / 2), "1.50 PB");
    assert_eq!(format_size(1024u64.pow(6)), "1.00 EB");
    assert_eq!(format_size(u64::MAX), "16.00 EB");
}

#[test]
fn format_size_rounds_half_up_to_two_places() {
    // 1048575 bytes sits just under one megabyte: shown under KB it rounds
    // up to 1024.00
    assert_eq!(format_size(1048575), "1024.00 KB");
    // 1029 bytes is 1.0048... KB, which rounds to 1.00
    assert_eq!(format_size(1029), "1.00 KB");
    // 1030 bytes is 1.00586 KB, which rounds to 1.01
    assert_eq!(format_size(1030), "1.01 KB");
}

#[test]
fn parse_decimal_or_zero() {
    assert_eq!(parse_u64_or_zero("0"), 0);
    assert_eq!(parse_u64_or_zero("123"), 123);
    assert_eq!(parse_u64_or_zero("18446744073709551615"), u64::MAX);
    assert_eq!(parse_u64_or_zero("18446744073709551616"), 0);
    assert_eq!(parse_u64_or_zero(""), 0);
    assert_eq!(parse_u64_or_zero("12a"), 0);
    assert_eq!(parse_u64_or_zero("-5"), 0);
}

#[test]
fn sort_orders_largest_first() {
    let entries = vec![
        entry("/d/small", 10, false),
        entry("/d/big", 4096, true),
        entry("/d/mid", 100, false),
        entry("/d/tiny", 1, false),
    ];
    let sorted = sort_entries_desc(&entries);
    assert_eq!(sorted.len(), 4);
    let sizes: Vec<u64> = sorted.iter().map(|e| e.size).collect();
    assert_eq!(sizes, vec![4096, 100, 10, 1]);
    let mut paths: Vec<String> = sorted.iter().map(|e| e.path.clone()).collect();
    paths.sort();
    assert_eq!(paths, vec!["/d/big", "/d/mid", "/d/small", "/d/tiny"]);
}

#[test]
fn disk_state_toggles_in_range_only() {
    let drives = vec![
        Drive::Network(NetworkDrive {
            mount_point: "/mnt/nfs".to_string(),
            used_space: 1,
            total_space: 2,
        }),
        Drive::Local(DiskInfo {
            model: "m".to_string(),
            total_space: 0,
            partitions: Vec::new(),
            is_cdrom: false,
            icon_name: "drive-harddisk".to_string(),
        }),
    ];
    let mut state = DiskState::new(drives);
    assert_eq!(state.expanded, vec![false, false]);
    state.toggle(1);
    assert_eq!(state.expanded, vec![false, true]);
    state.toggle(1);
    assert_eq!(state.expanded, vec![false, false]);
    state.toggle(5);
    assert_eq!(state.expanded, vec![false, false]);
}

#[test]
fn grand_totals_sum_disks_and_network_drives() {
    let drives = vec![
        Drive::Local(DiskInfo {
            model: "m".to_string(),
            total_space: 1000,
            partitions: vec![partition("/dev/sda1", 600, 200), partition("/dev/sda2", 400, 150)],
            is_cdrom: false,
            icon_name: "drive-harddisk".to_string(),
        }),
        Drive::Network(NetworkDrive {
            mount_point: "/mnt/nfs".to_string(),
            used_space: 50,
            total_space: 500,
        }),
    ];
    assert_eq!(total_space_of(&drives), 1500);
    assert_eq!(used_space_of(&drives), 400);
}

#[test]
fn files_state_keeps_its_parts() {
    let f = Files::new(
        "/".to_string(),
        "/home".to_string(),
        vec![entry("/home/x", 3, false)],
        true,
    );
    assert_eq!(f.mount_point, "/");
    assert_eq!(f.current_path, "/home");
    assert_eq!(f.entries.len(), 1);
    assert!(f.verbose);
}
