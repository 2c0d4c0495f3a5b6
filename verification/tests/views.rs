use duplicate_finder::model::{DuplicateFile, DuplicateGroup, FileEntry, MediaInfo, MediaKind, ScanSummary};
use duplicate_finder::present::{present_summary, present_summary_at};

fn file(path: &str, size: u64, modified: Option<i64>, media: Option<MediaInfo>) -> DuplicateFile {
    DuplicateFile {
        entry: FileEntry {
            path: path.to_string(),
            size,
            modified,
        },
        media,
    }
}

fn video(duration_micros: u64, codec: Option<&str>, dims: Option<(u32, u32)>) -> MediaInfo {
    MediaInfo {
        kind: MediaKind::Video,
        duration_micros,
        width: dims.map(|d| d.0),
        height: dims.map(|d| d.1),
        codec: codec.map(|c| c.to_string()),
    }
}

fn summary() -> ScanSummary {
    ScanSummary {
        files_scanned: 1234567,
        bytes_scanned: 0,
        exact_groups: vec![DuplicateGroup {
            files: vec![
                file("/a/x.bin", 1536, Some(19723 * 86400), None),
                file("/b/x.bin", 1536, Some(11016 * 86400), None),
            ],
            reclaimable_bytes: 1536,
        }],
        media_groups: vec![DuplicateGroup {
            files: vec![
                file("/m/one.mp4", 10 * 1024 * 1024, None, Some(video(65_250_000, Some("h264"), Some((1920, 1080))))),
                file("/m/two.mkv", 512, None, Some(video(65_750_000, None, None))),
                file("/m/three.mkv", 0, Some(0), None),
            ],
            reclaimable_bytes: 512,
        }],
        reclaimable_bytes: 2048,
        elapsed_ms: 1500,
        ffmpeg_available: true,
    }
}

#[test]
fn summaries_render_as_the_results_page_shows_them() {
    let now = 19723 * 86400 + 60;
    let view = present_summary_at(&summary(), now);
    assert_eq!(view.files_scanned_text, "1,234,567 files scanned");
    assert_eq!(view.reclaimable_text, "2.0 KB reclaimable");
    assert_eq!(view.elapsed_text, "finished in 1.5s");
    assert!(view.ffmpeg_available);

    let exact = &view.exact_groups[0];
    assert_eq!(exact.header_left, "2 files \u{b7} 1.5 KB each");
    assert_eq!(exact.header_right, "1.5 KB reclaimable");
    assert_eq!(exact.files[0].path, "/a/x.bin");
    assert_eq!(exact.files[0].size, 1536);
    assert_eq!(exact.files[0].size_text, "1.5 KB");
    assert_eq!(exact.files[0].detail_text, "Jan 1");
    assert_eq!(exact.files[1].detail_text, "Feb 29, 2000");
    assert!(!exact.files[0].playable);

    let media = &view.media_groups[0];
    assert_eq!(media.header_left, "3 files \u{b7} duration spread 0.50s");
    assert_eq!(media.header_right, "512 B reclaimable");
    assert_eq!(media.files[0].detail_text, "1920\u{d7}1080 H264 1:05.250");
    assert_eq!(media.files[0].size_text, "10 MB");
    assert!(media.files[0].playable);
    assert_eq!(media.files[1].detail_text, "1:05.750");
    assert_eq!(media.files[2].detail_text, "Jan 1, 1970");
    assert_eq!(media.files[2].size_text, "0 B");
    assert!(!media.files[2].playable);
}

#[test]
fn a_group_without_durations_has_no_spread() {
    let mut s = summary();
    s.media_groups = vec![DuplicateGroup {
        files: vec![file("/p", 1, None, None)],
        reclaimable_bytes: 0,
    }];
    let view = present_summary_at(&s, 0);
    assert_eq!(view.media_groups[0].header_left, "1 file \u{b7} duration spread -infs");
    assert_eq!(view.media_groups[0].files[0].detail_text, "");
}

#[test]
fn the_current_time_only_affects_dates() {
    let view = present_summary(&summary());
    assert_eq!(view.files_scanned_text, "1,234,567 files scanned");
    assert_eq!(view.media_groups[0].files[0].detail_text, "1920\u{d7}1080 H264 1:05.250");
    assert!(view.exact_groups[0].files[1].detail_text.starts_with("Feb 29"));
}
