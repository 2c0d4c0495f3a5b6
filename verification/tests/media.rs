use duplicate_finder::media::{cluster_by_duration, kind_for_extension, kind_for_file_name, media_kind_for, stream_selector};
use duplicate_finder::model::{FileEntry, MediaInfo, MediaKind};
use duplicate_finder::{StringHashMap, StringHashSet};

fn entry(path: &str, size: u64) -> FileEntry {
    FileEntry {
        path: path.to_string(),
        size,
        modified: None,
    }
}

fn info(kind: MediaKind, duration_micros: u64) -> MediaInfo {
    MediaInfo {
        kind,
        duration_micros,
        width: None,
        height: None,
        codec: None,
    }
}

fn lookup_of(items: Vec<(&str, MediaInfo)>) -> StringHashMap<MediaInfo> {
    let mut lookup = StringHashMap::new();
    for (path, info) in items {
        lookup.insert(path.to_string(), info);
    }
    lookup
}

fn set_of(paths: &[&str]) -> StringHashSet {
    let mut set = StringHashSet::new();
    for p in paths {
        set.insert(p.to_string());
    }
    set
}

const SECOND: u64 = 1_000_000;

#[test]
fn a_lone_file_forms_no_group() {
    let entries = vec![entry("a.mp4", 100)];
    let lookup = lookup_of(vec![("a.mp4", info(MediaKind::Video, 10 * SECOND))]);

    let groups = cluster_by_duration(&entries, &lookup, SECOND, &StringHashSet::new());
    assert!(groups.is_empty());
}

#[test]
fn durations_right_at_the_tolerance_boundary_are_grouped() {
    let entries = vec![entry("a.mp4", 100), entry("b.mp4", 200)];
    let lookup = lookup_of(vec![
        ("a.mp4", info(MediaKind::Video, 10 * SECOND)),
        ("b.mp4", info(MediaKind::Video, 11 * SECOND)),
    ]);

    let groups = cluster_by_duration(&entries, &lookup, SECOND, &StringHashSet::new());
    assert_eq!(groups.len(), 1);
    assert_eq!(groups[0].files.len(), 2);
    assert_eq!(groups[0].reclaimable_bytes, 100);
}

#[test]
fn durations_just_outside_the_tolerance_stay_separate() {
    let entries = vec![entry("a.mp4", 100), entry("b.mp4", 200)];
    let lookup = lookup_of(vec![
        ("a.mp4", info(MediaKind::Video, 10 * SECOND)),
        ("b.mp4", info(MediaKind::Video, 11_010_000)),
    ]);

    let groups = cluster_by_duration(&entries, &lookup, SECOND, &StringHashSet::new());
    assert!(groups.is_empty());
}

#[test]
fn audio_and_video_with_matching_durations_are_not_mixed() {
    let entries = vec![entry("a.mp4", 100), entry("b.mp3", 200)];
    let lookup = lookup_of(vec![
        ("a.mp4", info(MediaKind::Video, 10 * SECOND)),
        ("b.mp3", info(MediaKind::Audio, 10 * SECOND)),
    ]);

    let groups = cluster_by_duration(&entries, &lookup, SECOND, &StringHashSet::new());
    assert!(groups.is_empty());
}

#[test]
fn excluded_paths_are_skipped_even_if_durations_match() {
    let entries = vec![entry("a.mp4", 100), entry("b.mp4", 200)];
    let lookup = lookup_of(vec![
        ("a.mp4", info(MediaKind::Video, 10 * SECOND)),
        ("b.mp4", info(MediaKind::Video, 10 * SECOND)),
    ]);
    let exclude = set_of(&["a.mp4"]);

    let groups = cluster_by_duration(&entries, &lookup, SECOND, &exclude);
    assert!(groups.is_empty());
}

#[test]
fn chains_of_close_durations_form_one_group_sorted_by_duration() {
    let entries = vec![
        entry("c.mkv", 300),
        entry("a.mp4", 100),
        entry("lone.mp4", 50),
        entry("b.mov", 200),
        entry("x.flac", 10),
        entry("y.mp3", 20),
        entry("unprobed.mp4", 70),
    ];
    let lookup = lookup_of(vec![
        ("c.mkv", info(MediaKind::Video, 12 * SECOND)),
        ("a.mp4", info(MediaKind::Video, 10 * SECOND)),
        ("lone.mp4", info(MediaKind::Video, 30 * SECOND)),
        ("b.mov", info(MediaKind::Video, 11 * SECOND)),
        ("x.flac", info(MediaKind::Audio, 5 * SECOND)),
        ("y.mp3", info(MediaKind::Audio, 5 * SECOND + 1)),
    ]);

    let groups = cluster_by_duration(&entries, &lookup, SECOND, &StringHashSet::new());
    assert_eq!(groups.len(), 2);
    let paths: Vec<&str> = groups[0].files.iter().map(|f| f.entry.path.as_str()).collect();
    assert_eq!(paths, vec!["a.mp4", "b.mov", "c.mkv"]);
    assert_eq!(groups[0].reclaimable_bytes, 300);
    assert_eq!(groups[0].files[1].media.as_ref().unwrap().duration_micros, 11 * SECOND);
    let paths: Vec<&str> = groups[1].files.iter().map(|f| f.entry.path.as_str()).collect();
    assert_eq!(paths, vec!["x.flac", "y.mp3"]);
    assert_eq!(groups[1].reclaimable_bytes, 10);
}

#[test]
fn zero_tolerance_groups_only_equal_durations() {
    let entries = vec![entry("a.mp4", 1), entry("b.mp4", 2), entry("c.mp4", 3)];
    let lookup = lookup_of(vec![
        ("a.mp4", info(MediaKind::Video, 7)),
        ("b.mp4", info(MediaKind::Video, 8)),
        ("c.mp4", info(MediaKind::Video, 7)),
    ]);
    let groups = cluster_by_duration(&entries, &lookup, 0, &StringHashSet::new());
    assert_eq!(groups.len(), 1);
    let paths: Vec<&str> = groups[0].files.iter().map(|f| f.entry.path.as_str()).collect();
    assert_eq!(paths, vec!["a.mp4", "c.mp4"]);
    assert_eq!(groups[0].reclaimable_bytes, 1);
}

#[test]
fn media_kinds_follow_the_extension() {
    assert_eq!(media_kind_for("movie.mp4"), Some(MediaKind::Video));
    assert_eq!(media_kind_for("/music/song.flac"), Some(MediaKind::Audio));
    assert_eq!(media_kind_for("dir.mp3/notes.txt"), None);
    assert_eq!(media_kind_for("archive.tar.ts"), Some(MediaKind::Video));
    assert_eq!(media_kind_for("noext"), None);
    assert_eq!(media_kind_for("a/b/"), None);
    assert_eq!(media_kind_for(".mp4"), None);
    assert_eq!(media_kind_for("x/.."), None);
    assert_eq!(media_kind_for("clip."), None);
    assert_eq!(media_kind_for("voice.opus"), Some(MediaKind::Audio));
}

#[test]
fn extensions_match_in_any_case() {
    assert_eq!(media_kind_for("A.MKV"), Some(MediaKind::Video));
    assert_eq!(media_kind_for("track.FlAc"), Some(MediaKind::Audio));
    assert_eq!(media_kind_for("scan.JPG"), None);
}

#[test]
fn stream_selectors_pick_the_first_stream_of_the_kind() {
    assert_eq!(stream_selector(MediaKind::Video), "v:0");
    assert_eq!(stream_selector(MediaKind::Audio), "a:0");
}

#[test]
fn lower_case_extensions_name_their_kind() {
    assert_eq!(kind_for_extension("mkv"), Some(MediaKind::Video));
    assert_eq!(kind_for_extension("ts"), Some(MediaKind::Video));
    assert_eq!(kind_for_extension("alac"), Some(MediaKind::Audio));
    assert_eq!(kind_for_extension("MKV"), None);
    assert_eq!(kind_for_extension(""), None);
    assert_eq!(kind_for_extension("mp"), None);
}

#[test]
fn file_names_decide_the_kind() {
    assert_eq!(kind_for_file_name(Some("Clip.MOV")), Some(MediaKind::Video));
    assert_eq!(kind_for_file_name(Some("song.mp3")), Some(MediaKind::Audio));
    assert_eq!(kind_for_file_name(Some(".mp4")), None);
    assert_eq!(kind_for_file_name(Some("a.b.flac")), Some(MediaKind::Audio));
    assert_eq!(kind_for_file_name(Some("notes")), None);
    assert_eq!(kind_for_file_name(Some("clip.")), None);
    assert_eq!(kind_for_file_name(None), None);
}

fn expected_kind(path: &str) -> Option<MediaKind> {
    let ext = std::path::Path::new(path).extension()?.to_str()?.to_lowercase();
    kind_for_extension(&ext)
}

#[test]
fn paths_are_read_as_this_platform_reads_them() {
    for path in [
        "\\\\s\\a.mp4",
        "\\\\?\\a.mp4",
        "C:\\x.y\\.mp4",
        "C:.mp4",
        "a\\b.mkv",
        "x.mp4\\.",
        "d/e.flac/",
        "a/./b.WAV/.",
        "plain.wav",
        "x/..",
        "",
    ] {
        assert_eq!(media_kind_for(path), expected_kind(path), "{path}");
    }
}

#[test]
fn the_kind_is_read_off_the_file_name_only() {
    assert_eq!(media_kind_for("movie.mp4"), Some(MediaKind::Video));
    assert_eq!(media_kind_for("dir.mp3/notes.txt"), None);
    assert_eq!(media_kind_for("x/.mp4"), None);
    assert_eq!(media_kind_for("a.mkv/b"), None);
}
