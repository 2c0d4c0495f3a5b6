use duplicate_finder::digest::{digest_of, digest_words_of, sample_digest, samples_whole_file, ContentHasher, SAMPLE_SIZE};
use duplicate_finder::hashing::{collect_samples, confirmed_digests, exact_candidates, group_exact, split_samples};
use duplicate_finder::model::{FileEntry, MediaInfo, MediaKind};
use duplicate_finder::StringHashMap;

fn entry(path: &str, size: u64) -> FileEntry {
    FileEntry {
        path: path.to_string(),
        size,
        modified: Some(1_700_000_000),
    }
}

fn sorted(mut v: Vec<usize>) -> Vec<usize> {
    v.sort();
    v
}

#[test]
fn only_files_sharing_a_size_are_candidates() {
    let entries = vec![entry("a", 10), entry("b", 20), entry("c", 10), entry("d", 30), entry("e", 20), entry("f", 10)];
    assert_eq!(sorted(exact_candidates(&entries)), vec![0, 1, 2, 4, 5]);
    assert!(exact_candidates(&vec![entry("x", 1), entry("y", 2)]).is_empty());
    assert!(exact_candidates(&vec![]).is_empty());
}

#[test]
fn digests_are_blake3() {
    let data: Vec<u8> = (0..5000u32).map(|i| (i * 7 % 251) as u8).collect();
    assert_eq!(&digest_of(&data), blake3::hash(&data).as_bytes());
    assert_eq!(&digest_of(b""), blake3::hash(b"").as_bytes());

    let mut h = ContentHasher::new();
    h.update(&data[..1234]);
    h.update(&data[1234..]);
    assert_eq!(h.finalize(), digest_of(&data));

    let head = [1u8; 16];
    let tail = [2u8; 16];
    let mut joined = head.to_vec();
    joined.extend_from_slice(&tail);
    assert_eq!(sample_digest(&head, &tail), digest_of(&joined));
    assert_ne!(sample_digest(&head, &tail), digest_of(&head));
}

#[test]
fn small_files_are_sampled_whole() {
    assert_eq!(SAMPLE_SIZE, 64 * 1024);
    assert!(samples_whole_file(0));
    assert!(samples_whole_file(2 * 65536));
    assert!(!samples_whole_file(2 * 65536 + 1));
}

#[test]
fn digest_words_read_big_endian() {
    let mut d = [0u8; 32];
    for (i, b) in d.iter_mut().enumerate() {
        *b = i as u8;
    }
    let w = digest_words_of(&d);
    assert_eq!(w.0, 0x0001020304050607);
    assert_eq!(w.1, 0x08090a0b0c0d0e0f);
    assert_eq!(w.2, 0x1011121314151617);
    assert_eq!(w.3, 0x18191a1b1c1d1e1f);
}

#[test]
fn matching_samples_split_by_coverage() {
    let entries = vec![entry("a", 10), entry("b", 10), entry("c", 10), entry("d", 500_000), entry("e", 500_000), entry("f", 500_000)];
    let x = [1u8; 32];
    let y = [2u8; 32];
    let samples = vec![
        (0, x, true),
        (1, x, true),
        (2, y, true),
        (3, x, false),
        (4, x, false),
        (5, y, false),
    ];
    let (whole, partial) = split_samples(&entries, &samples);
    assert_eq!(sorted(whole), vec![0, 1]);
    assert_eq!(sorted(partial), vec![3, 4]);
}

#[test]
fn samples_of_different_sizes_do_not_match() {
    let entries = vec![entry("a", 10), entry("b", 11)];
    let x = [9u8; 32];
    let (whole, partial) = split_samples(&entries, &vec![(0, x, true), (1, x, true)]);
    assert!(whole.is_empty());
    assert!(partial.is_empty());
}

#[test]
fn equal_digests_of_equal_sizes_form_groups() {
    let entries = vec![entry("a", 100), entry("b", 100), entry("c", 100), entry("d", 7), entry("e", 7), entry("f", 100)];
    let x = [3u8; 32];
    let y = [4u8; 32];
    let mut lookup = StringHashMap::new();
    lookup.insert(
        "b".to_string(),
        MediaInfo { kind: MediaKind::Video, duration_micros: 5, width: Some(2), height: Some(3), codec: None },
    );
    let hashed = vec![(0, x), (1, x), (2, y), (3, x), (4, x), (5, x)];
    let groups = group_exact(&entries, &lookup, &hashed);
    assert_eq!(groups.len(), 2);
    let mut seen: Vec<(Vec<String>, u64)> = groups
        .iter()
        .map(|g| {
            let mut paths: Vec<String> = g.files.iter().map(|f| f.entry.path.clone()).collect();
            paths.sort();
            (paths, g.reclaimable_bytes)
        })
        .collect();
    seen.sort();
    assert_eq!(
        seen,
        vec![
            (vec!["a".to_string(), "b".to_string(), "f".to_string()], 200),
            (vec!["d".to_string(), "e".to_string()], 7),
        ]
    );
    for g in &groups {
        for f in &g.files {
            assert_eq!(f.media.is_some(), f.entry.path == "b");
            assert_eq!(f.entry.modified, Some(1_700_000_000));
        }
    }
}

#[test]
fn a_unique_digest_forms_no_group() {
    let entries = vec![entry("a", 100), entry("b", 100)];
    let groups = group_exact(&entries, &StringHashMap::new(), &vec![(0, [1u8; 32]), (1, [2u8; 32])]);
    assert!(groups.is_empty());
}

#[test]
fn unreadable_samples_are_left_out() {
    let x = [5u8; 32];
    let samples = collect_samples(&vec![4, 7, 9], &vec![Some((x, true)), None, Some((x, false))]);
    assert_eq!(samples, vec![(4, x, true), (9, x, false)]);
    assert!(collect_samples(&vec![], &vec![]).is_empty());
}

#[test]
fn partial_matches_count_only_once_read_again() {
    let a = [1u8; 32];
    let b = [2u8; 32];
    let c = [3u8; 32];
    let samples = vec![(0, a, true), (1, a, true), (2, b, false), (3, b, false), (4, b, false)];
    let hashed = confirmed_digests(&samples, &vec![0, 1], &vec![2, 3, 4], &vec![Some(c), None, Some(c)]);
    assert_eq!(hashed, vec![(0, a), (1, a), (2, c), (4, c)]);
}

#[test]
fn the_exact_search_pipeline_groups_each_entry_once() {
    let entries = vec![entry("a", 10), entry("b", 10), entry("c", 500_000), entry("d", 500_000), entry("e", 3)];
    let candidates = exact_candidates(&entries);
    let digests = |i: usize| -> Option<([u8; 32], bool)> {
        if entries[i].size == 10 { Some(([7u8; 32], true)) } else { Some(([8u8; 32], false)) }
    };
    let sampled: Vec<Option<([u8; 32], bool)>> = candidates.iter().map(|&i| digests(i)).collect();
    let samples = collect_samples(&candidates, &sampled);
    let (whole, partial) = split_samples(&entries, &samples);
    let rehashed: Vec<Option<[u8; 32]>> = partial.iter().map(|_| Some([9u8; 32])).collect();
    let hashed = confirmed_digests(&samples, &whole, &partial, &rehashed);
    let groups = group_exact(&entries, &StringHashMap::new(), &hashed);
    let mut paths: Vec<String> = groups.iter().flat_map(|g| g.files.iter().map(|f| f.entry.path.clone())).collect();
    paths.sort();
    assert_eq!(paths, vec!["a", "b", "c", "d"]);
    assert_eq!(groups.len(), 2);
}
