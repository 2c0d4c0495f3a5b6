use duplicate_finder::model::{remove_paths, DuplicateFile, DuplicateGroup, FileEntry, ScanSummary};
use duplicate_finder::StringHashSet;

fn file(path: &str, size: u64) -> DuplicateFile {
    DuplicateFile {
        entry: FileEntry {
            path: path.to_string(),
            size,
            modified: None,
        },
        media: None,
    }
}

fn set_of(paths: &[&str]) -> StringHashSet {
    let mut set = StringHashSet::new();
    for p in paths {
        set.insert(p.to_string());
    }
    set
}

#[test]
fn removing_a_path_shrinks_the_group_and_reclaimable_total() {
    let mut summary = ScanSummary {
        files_scanned: 3,
        bytes_scanned: 300,
        exact_groups: vec![DuplicateGroup {
            files: vec![file("a", 100), file("b", 100), file("c", 100)],
            reclaimable_bytes: 200,
        }],
        media_groups: vec![],
        reclaimable_bytes: 200,
        elapsed_ms: 0,
        ffmpeg_available: false,
    };

    remove_paths(&mut summary, &set_of(&["b"]));

    assert_eq!(summary.exact_groups[0].files.len(), 2);
    assert_eq!(summary.exact_groups[0].reclaimable_bytes, 100);
    assert_eq!(summary.reclaimable_bytes, 100);
}

#[test]
fn removing_down_to_one_file_drops_the_whole_group() {
    let mut summary = ScanSummary {
        files_scanned: 2,
        bytes_scanned: 200,
        exact_groups: vec![DuplicateGroup {
            files: vec![file("a", 100), file("b", 100)],
            reclaimable_bytes: 100,
        }],
        media_groups: vec![],
        reclaimable_bytes: 100,
        elapsed_ms: 0,
        ffmpeg_available: false,
    };

    remove_paths(&mut summary, &set_of(&["b"]));

    assert!(summary.exact_groups.is_empty());
    assert_eq!(summary.reclaimable_bytes, 0);
}

struct Lcg(u64);

impl Lcg {
    fn next(&mut self) -> u64 {
        self.0 = self.0.wrapping_mul(6364136223846793005).wrapping_add(1442695040888963407);
        self.0 >> 33
    }
}

fn summary_from_group_sizes(group_sizes: &[Vec<u64>]) -> ScanSummary {
    let mut idx = 0usize;
    let mut exact_groups = Vec::new();
    for sizes in group_sizes {
        let mut files = Vec::new();
        for &size in sizes {
            files.push(file(&format!("f{idx}"), size));
            idx += 1;
        }
        let total: u64 = sizes.iter().sum();
        let max = sizes.iter().copied().max().unwrap_or(0);
        exact_groups.push(DuplicateGroup {
            files,
            reclaimable_bytes: total - max,
        });
    }
    let reclaimable_bytes = exact_groups.iter().map(|g| g.reclaimable_bytes).sum();
    ScanSummary {
        files_scanned: idx as u64,
        bytes_scanned: 0,
        exact_groups,
        media_groups: vec![],
        reclaimable_bytes,
        elapsed_ms: 0,
        ffmpeg_available: false,
    }
}

#[test]
fn remove_paths_upholds_its_invariants() {
    let mut rng = Lcg(7);
    for _ in 0..300 {
        let n_groups = (rng.next() % 5) as usize;
        let mut group_sizes = Vec::new();
        for _ in 0..n_groups {
            let n = 2 + (rng.next() % 4) as usize;
            let mut sizes = Vec::new();
            for _ in 0..n {
                sizes.push(1 + rng.next() % 999);
            }
            group_sizes.push(sizes);
        }
        let mut summary = summary_from_group_sizes(&group_sizes);
        let mut removed_paths = Vec::new();
        for g in &summary.exact_groups {
            for f in &g.files {
                if rng.next() % 2 == 0 {
                    removed_paths.push(f.entry.path.clone());
                }
            }
        }
        let mut removed = StringHashSet::new();
        for p in &removed_paths {
            removed.insert(p.clone());
        }

        remove_paths(&mut summary, &removed);

        let mut expected_total = 0u64;
        for group in &summary.exact_groups {
            assert!(group.files.len() > 1);
            for f in &group.files {
                assert!(!removed_paths.contains(&f.entry.path));
            }
            let total: u64 = group.files.iter().map(|f| f.entry.size).sum();
            let max = group.files.iter().map(|f| f.entry.size).max().unwrap();
            assert_eq!(group.reclaimable_bytes, total - max);
            expected_total += group.reclaimable_bytes;
        }
        assert_eq!(summary.reclaimable_bytes, expected_total);
    }
}

#[test]
fn uneven_sizes_free_all_but_the_largest() {
    let mut summary = ScanSummary {
        files_scanned: 4,
        bytes_scanned: 0,
        exact_groups: vec![],
        media_groups: vec![DuplicateGroup {
            files: vec![file("a", 300), file("b", 100), file("c", 700), file("d", 50)],
            reclaimable_bytes: 0,
        }],
        reclaimable_bytes: 0,
        elapsed_ms: 12,
        ffmpeg_available: true,
    };

    remove_paths(&mut summary, &set_of(&["c"]));

    assert_eq!(summary.media_groups.len(), 1);
    let paths: Vec<&str> = summary.media_groups[0].files.iter().map(|f| f.entry.path.as_str()).collect();
    assert_eq!(paths, vec!["a", "b", "d"]);
    assert_eq!(summary.media_groups[0].reclaimable_bytes, 150);
    assert_eq!(summary.reclaimable_bytes, 150);
    assert_eq!(summary.elapsed_ms, 12);
    assert!(summary.ffmpeg_available);
    assert_eq!(summary.files_scanned, 4);
}

#[test]
fn removing_in_two_steps_matches_removing_at_once() {
    let sizes = vec![vec![5, 5, 5, 5], vec![9, 9], vec![3, 4, 8]];
    let mut stepwise = summary_from_group_sizes(&sizes);
    let mut at_once = summary_from_group_sizes(&sizes);

    remove_paths(&mut stepwise, &set_of(&["f0", "f7"]));
    remove_paths(&mut stepwise, &set_of(&["f1", "f4"]));
    remove_paths(&mut at_once, &set_of(&["f0", "f7", "f1", "f4"]));

    let paths = |s: &ScanSummary| -> Vec<Vec<String>> {
        s.exact_groups.iter().map(|g| g.files.iter().map(|f| f.entry.path.clone()).collect()).collect()
    };
    assert_eq!(paths(&stepwise), paths(&at_once));
    assert_eq!(paths(&at_once), vec![vec!["f2".to_string(), "f3".to_string()], vec!["f6".to_string(), "f8".to_string()]]);
    assert_eq!(stepwise.reclaimable_bytes, at_once.reclaimable_bytes);
    assert_eq!(at_once.reclaimable_bytes, 5 + 3);

    remove_paths(&mut at_once, &set_of(&["f0", "f7", "f1", "f4"]));
    assert_eq!(paths(&at_once).len(), 2);
    assert_eq!(at_once.reclaimable_bytes, 8);
}

#[test]
fn removing_nothing_keeps_consistent_groups() {
    let sizes = vec![vec![5, 5], vec![1, 2, 3]];
    let mut summary = summary_from_group_sizes(&sizes);
    remove_paths(&mut summary, &StringHashSet::new());
    assert_eq!(summary.exact_groups.len(), 2);
    assert_eq!(summary.exact_groups[0].reclaimable_bytes, 5);
    assert_eq!(summary.exact_groups[1].reclaimable_bytes, 3);
    assert_eq!(summary.reclaimable_bytes, 8);
}
