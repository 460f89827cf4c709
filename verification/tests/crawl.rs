use cosmic_dust::crawler::{
    crawl_files, cumulative_size, is_child, is_pruned, is_under, FileEntry, Observation,
};

fn obs(path: &str, size: u64, is_dir: bool) -> Observation {
    Observation { path: path.to_string(), size, is_dir }
}

fn find<'a>(entries: &'a [FileEntry], path: &str) -> &'a FileEntry {
    entries.iter().find(|e| e.path == path).expect("entry missing")
}

#[test]
fn file_and_empty_subdirectory() {
    let observations = vec![obs("/data/file.bin", 1024, false), obs("/data/sub", 0, true)];
    let entries = crawl_files("/data", &observations);
    assert_eq!(entries.len(), 2);
    let f = find(&entries, "/data/file.bin");
    assert!(!f.is_dir);
    assert_eq!(f.size, 1024);
    let d = find(&entries, "/data/sub");
    assert!(d.is_dir);
    assert_eq!(d.size, 0);
}

#[test]
fn unreadable_subdirectory_resolves_to_zero() {
    // the walk reported the directory itself but could not enter it, so no
    // descendants were observed; the crawl still completes
    let observations = vec![obs("/data/secret", 0, true), obs("/data/readme", 10, false)];
    let entries = crawl_files("/data", &observations);
    assert_eq!(entries.len(), 2);
    assert_eq!(find(&entries, "/data/secret").size, 0);
    assert_eq!(find(&entries, "/data/readme").size, 10);
}

#[test]
fn directory_size_sums_descendant_files() {
    let observations = vec![
        obs("/data/a", 0, true),
        obs("/data/a/f1", 100, false),
        obs("/data/a/b", 0, true),
        obs("/data/a/b/f2", 23, false),
        obs("/data/other", 7, false),
    ];
    let entries = crawl_files("/data", &observations);
    assert_eq!(entries.len(), 2);
    assert_eq!(find(&entries, "/data/a").size, 123);
    assert_eq!(find(&entries, "/data/other").size, 7);
}

#[test]
fn pruned_trees_neither_appear_nor_count() {
    let observations = vec![
        obs("/opt", 0, true),
        obs("/opt/f", 10, false),
        obs("/proc", 0, true),
        obs("/proc/kcore", 140737477885952, false),
        obs("/sys", 0, true),
        obs("/dev", 0, true),
    ];
    let entries = crawl_files("/", &observations);
    assert_eq!(entries.len(), 1);
    assert_eq!(entries[0].path, "/opt");
    assert_eq!(entries[0].size, 10);
}

#[test]
fn aggregation_ignores_observation_order() {
    let forward = vec![
        obs("/data/a", 0, true),
        obs("/data/a/f1", 100, false),
        obs("/data/a/f2", 23, false),
    ];
    let backward = vec![
        obs("/data/a/f2", 23, false),
        obs("/data/a/f1", 100, false),
        obs("/data/a", 0, true),
    ];
    assert_eq!(cumulative_size(&forward, "/data/a"), 123);
    assert_eq!(cumulative_size(&backward, "/data/a"), 123);
    let e1 = crawl_files("/data", &forward);
    let e2 = crawl_files("/data", &backward);
    assert_eq!(find(&e1, "/data/a").size, find(&e2, "/data/a").size);
}

#[test]
fn root_itself_is_not_an_entry() {
    let observations = vec![obs("/data/x", 5, false)];
    let entries = crawl_files("/data", &observations);
    assert_eq!(entries.len(), 1);
    assert_eq!(entries[0].path, "/data/x");
}

#[test]
fn deeper_entries_do_not_surface() {
    let observations = vec![obs("/data/a", 0, true), obs("/data/a/deep", 9, false)];
    let entries = crawl_files("/data", &observations);
    assert_eq!(entries.len(), 1);
    assert_eq!(entries[0].path, "/data/a");
    assert_eq!(entries[0].size, 9);
}

#[test]
fn path_relations() {
    assert!(is_under("/data/a/b", "/data"));
    assert!(is_under("/data/a", "/data"));
    assert!(!is_under("/database", "/data"));
    assert!(!is_under("/data", "/data"));
    assert!(is_under("/usr", "/"));

    assert!(is_child("/data/a", "/data"));
    assert!(!is_child("/data/a/b", "/data"));
    assert!(is_child("/usr", "/"));
    assert!(!is_child("/usr/bin", "/"));

    assert!(is_pruned("/proc"));
    assert!(is_pruned("/proc/42/maps"));
    assert!(is_pruned("/sys/kernel"));
    assert!(is_pruned("/dev/sda"));
    assert!(!is_pruned("/device"));
    assert!(!is_pruned("/home"));
}

#[test]
fn empty_walk_gives_empty_result() {
    let observations: Vec<Observation> = Vec::new();
    let entries = crawl_files("/data", &observations);
    assert_eq!(entries.len(), 0);
}
