use duplicate_finder::model::{DuplicateFile, DuplicateGroup, FileEntry, ScanOptions};
use duplicate_finder::scan::{all_scanned, check_scan_options, grouped_paths, likely_groups, scanned_paths, select_folders, summarize, total_size};
use duplicate_finder::model::{MediaInfo, MediaKind};
use duplicate_finder::StringHashMap;
use duplicate_finder::StringHashSet;

fn entry(path: &str, size: u64) -> FileEntry {
    FileEntry {
        path: path.to_string(),
        size,
        modified: None,
    }
}

fn group(paths: &[(&str, u64)], reclaimable_bytes: u64) -> DuplicateGroup {
    DuplicateGroup {
        files: paths.iter().map(|(p, s)| DuplicateFile { entry: entry(p, *s), media: None }).collect(),
        reclaimable_bytes,
    }
}

#[test]
fn only_scanned_files_are_allowed() {
    let mut scanned = StringHashSet::new();
    scanned.insert("scanned".to_string());

    assert!(all_scanned(&scanned, &["scanned".to_string()]));
    assert!(!all_scanned(&scanned, &["other".to_string()]));
}

#[test]
fn every_path_must_have_been_scanned() {
    let scanned = scanned_paths(&vec![entry("a", 1), entry("b", 2)]);
    assert!(all_scanned(&scanned, &[]));
    assert!(all_scanned(&scanned, &["b".to_string(), "a".to_string()]));
    assert!(!all_scanned(&scanned, &["a".to_string(), "c".to_string()]));
    assert!(!all_scanned(&StringHashSet::new(), &["a".to_string()]));
}

#[test]
fn dropped_files_are_not_added_as_folders() {
    let folder = "src".to_string();
    let file = "src/lib.rs".to_string();
    let paths = vec![folder.clone(), file];
    let is_folder: Vec<bool> = paths.iter().map(|p| std::path::Path::new(p).is_dir()).collect();

    assert_eq!(select_folders(paths, &is_folder), vec![folder]);
}

#[test]
fn folders_keep_their_order() {
    let paths = vec!["x".to_string(), "y".to_string(), "z".to_string()];
    assert_eq!(select_folders(paths, &vec![true, false, true]), vec!["x".to_string(), "z".to_string()]);
    assert!(select_folders(vec![], &vec![]).is_empty());
}

#[test]
fn a_scan_needs_a_folder() {
    let mut options = ScanOptions {
        folders: vec![],
        duration_tolerance_micros: 1_000_000,
        min_file_size: 1,
        include_hidden: false,
    };
    assert_eq!(check_scan_options(&options), Err("Add at least one folder to scan.".to_string()));
    options.folders.push("/tmp".to_string());
    assert_eq!(check_scan_options(&options), Ok(()));
}

#[test]
fn grouped_paths_collect_every_member() {
    let groups = vec![group(&[("a", 1), ("b", 1)], 1), group(&[("c", 5), ("d", 5), ("e", 5)], 10)];
    let paths = grouped_paths(&groups);
    for p in ["a", "b", "c", "d", "e"] {
        assert!(paths.contains(p));
    }
    assert!(!paths.contains("f"));
    assert_eq!(paths.len(), 5);
}

#[test]
fn summaries_add_up_the_scan() {
    let entries = vec![entry("a", 10), entry("b", 10), entry("c", 3), entry("d", 40)];
    assert_eq!(total_size(&entries), 63);
    let exact = vec![group(&[("a", 10), ("b", 10)], 10)];
    let media = vec![group(&[("c", 3), ("d", 40)], 3)];
    let summary = summarize(&entries, exact, media, 1234, true);
    assert_eq!(summary.files_scanned, 4);
    assert_eq!(summary.bytes_scanned, 63);
    assert_eq!(summary.exact_groups.len(), 1);
    assert_eq!(summary.media_groups.len(), 1);
    assert_eq!(summary.reclaimable_bytes, 13);
    assert_eq!(summary.elapsed_ms, 1234);
    assert!(summary.ffmpeg_available);
}

fn probed(duration_micros: u64) -> MediaInfo {
    MediaInfo { kind: MediaKind::Video, duration_micros, width: None, height: None, codec: None }
}

#[test]
fn likely_groups_leave_out_exact_duplicates_and_need_ffprobe() {
    let entries = vec![entry("a.mp4", 10), entry("b.mp4", 10), entry("c.mp4", 20), entry("d.mp4", 30)];
    let mut lookup = StringHashMap::new();
    for (p, d) in [("a.mp4", 100), ("b.mp4", 100), ("c.mp4", 150), ("d.mp4", 180)] {
        lookup.insert(p.to_string(), probed(d));
    }
    let exact = vec![group(&[("a.mp4", 10), ("b.mp4", 10)], 10)];
    let groups = likely_groups(&entries, &lookup, 50, &exact, true);
    assert_eq!(groups.len(), 1);
    let paths: Vec<&str> = groups[0].files.iter().map(|f| f.entry.path.as_str()).collect();
    assert_eq!(paths, vec!["c.mp4", "d.mp4"]);
    assert!(likely_groups(&entries, &lookup, 50, &exact, false).is_empty());
    assert_eq!(likely_groups(&entries, &lookup, 50, &vec![], true)[0].files.len(), 4);
}
