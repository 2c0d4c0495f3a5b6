//! The bookkeeping around a scan: checking the request, assembling the
//! summary, and remembering which paths the latest scan returned.

use vstd::prelude::*;
use vstd::hash_set::StringHashSet;
use vstd::hash_map::StringHashMap;
use crate::grouping::{arrangement_of, Key};
use crate::media::{candidate_keys, chained, cluster_by_duration, groups_of_runs, likely_group, multi, stretches};
use crate::model::{
    entries_size, groups_reclaimable, DuplicateGroup, FileEntry, MediaInfo, MediaKind, ScanOptions, ScanSummary,
};

verus! {

/// Whether every path in `paths` was returned by the latest scan, whose paths
/// `scanned` holds.
pub fn all_scanned(scanned: &StringHashSet, paths: &[String]) -> (r: bool)
    ensures
        r == forall|i: int| 0 <= i < paths@.len() ==> scanned@.contains(#[trigger] paths@[i]@),
{
    let mut i: usize = 0;
    while i < paths.len()
        invariant
            i <= paths@.len(),
            forall|k: int| 0 <= k < i ==> scanned@.contains(#[trigger] paths@[k]@),
        decreases paths@.len() - i,
    {
        if !scanned.contains(paths[i].as_str()) {
            return false;
        }
        i = i + 1;
    }
    true
}

/// The set of the paths of the given entries.
pub fn scanned_paths(entries: &Vec<FileEntry>) -> (r: StringHashSet)
    ensures
        forall|p: Seq<char>| r@.contains(p) <==> exists|i: int| 0 <= i < entries@.len() && (#[trigger] entries@[i]).path@ == p,
{
    let mut set = StringHashSet::new();
    let mut i: usize = 0;
    while i < entries.len()
        invariant
            i <= entries@.len(),
            forall|p: Seq<char>| set@.contains(p) <==> exists|k: int| 0 <= k < i && (#[trigger] entries@[k]).path@ == p,
        decreases entries@.len() - i,
    {
        set.insert(entries[i].path.clone());
        proof {
            assert forall|p: Seq<char>| set@.contains(p) <==> exists|k: int| 0 <= k < i + 1 && (#[trigger] entries@[k]).path@ == p by {
                if p == entries@[i as int].path@ {
                    assert(entries@[i as int].path@ == p);
                }
            }
        }
        i = i + 1;
    }
    set
}

/// The set of the paths of the files of the given groups.
pub fn grouped_paths(groups: &Vec<DuplicateGroup>) -> (r: StringHashSet)
    ensures
        forall|p: Seq<char>| r@.contains(p) <==> exists|g: int, m: int|
            0 <= g < groups@.len() && 0 <= m < groups@[g].files@.len() && (#[trigger] groups@[g].files@[m]).entry.path@ == p,
{
    let mut set = StringHashSet::new();
    let mut g: usize = 0;
    while g < groups.len()
        invariant
            g <= groups@.len(),
            forall|p: Seq<char>| set@.contains(p) <==> exists|h: int, m: int|
                0 <= h < g && 0 <= m < groups@[h].files@.len() && (#[trigger] groups@[h].files@[m]).entry.path@ == p,
        decreases groups@.len() - g,
    {
        let files = &groups[g].files;
        let mut m: usize = 0;
        while m < files.len()
            invariant
                g < groups@.len(),
                files@ == groups@[g as int].files@,
                m <= files@.len(),
                forall|p: Seq<char>| set@.contains(p) <==> exists|h: int, n: int|
                    ((0 <= h < g && 0 <= n < groups@[h].files@.len()) || (h == g && 0 <= n < m))
                        && (#[trigger] groups@[h].files@[n]).entry.path@ == p,
            decreases files@.len() - m,
        {
            set.insert(files[m].entry.path.clone());
            proof {
                assert forall|p: Seq<char>| set@.contains(p) <==> exists|h: int, n: int|
                    ((0 <= h < g && 0 <= n < groups@[h].files@.len()) || (h == g && 0 <= n < m + 1))
                        && (#[trigger] groups@[h].files@[n]).entry.path@ == p by {
                    if p == files@[m as int].entry.path@ {
                        assert(groups@[g as int].files@[m as int].entry.path@ == p);
                    }
                }
            }
            m = m + 1;
        }
        g = g + 1;
    }
    set
}

/// The paths of the files of the given groups.
pub open spec fn group_paths(groups: Seq<DuplicateGroup>) -> Set<Seq<char>> {
    Set::new(
        |p: Seq<char>|
            exists|g: int, m: int|
                0 <= g < groups.len() && 0 <= m < groups[g].files@.len() && (#[trigger] groups[g].files@[m]).entry.path@
                    == p,
    )
}

/// The likely-duplicate groups of a scan: none when ffprobe is missing;
/// otherwise the clusters of close durations among the probed files, leaving
/// out every file already in an exact-duplicate group.
pub fn likely_groups(
    entries: &Vec<FileEntry>,
    media_lookup: &StringHashMap<MediaInfo>,
    tolerance_micros: u64,
    exact_groups: &Vec<DuplicateGroup>,
    ffmpeg_available: bool,
) -> (r: Vec<DuplicateGroup>)
    requires
        entries_size(entries@) <= u64::MAX,
    ensures
        !ffmpeg_available ==> r@.len() == 0,
        ffmpeg_available ==> exists|video: Seq<Key>, audio: Seq<Key>|
            {
                &&& arrangement_of(
                    video,
                    candidate_keys(entries@, media_lookup@, group_paths(exact_groups@), MediaKind::Video),
                )
                &&& arrangement_of(
                    audio,
                    candidate_keys(entries@, media_lookup@, group_paths(exact_groups@), MediaKind::Audio),
                )
                &&& #[trigger] groups_of_runs(
                    r@,
                    multi(stretches(video, tolerance_micros)) + multi(stretches(audio, tolerance_micros)),
                    entries@,
                    media_lookup@,
                )
            },
        forall|g: int| 0 <= g < r@.len() ==> likely_group(#[trigger] r@[g], group_paths(exact_groups@)),
        forall|g: int| 0 <= g < r@.len() ==> chained(#[trigger] r@[g], tolerance_micros),
{
    if !ffmpeg_available {
        return Vec::new();
    }
    let exclude = grouped_paths(exact_groups);
    proof {
        assert(exclude@ =~= group_paths(exact_groups@));
    }
    cluster_by_duration(entries, media_lookup, tolerance_micros, &exclude)
}

/// Checks a scan request: at least one folder must be given.
pub fn check_scan_options(options: &ScanOptions) -> (r: Result<(), String>)
    ensures
        r is Err <==> options.folders@.len() == 0,
        r matches Err(message) ==> message@ == "Add at least one folder to scan."@,
{
    if options.folders.len() == 0 {
        return Err(String::from_str("Add at least one folder to scan."));
    }
    Ok(())
}

/// Sum of the sizes of the entries.
pub fn total_size(entries: &Vec<FileEntry>) -> (r: u64)
    requires
        entries_size(entries@) <= u64::MAX,
    ensures
        r == entries_size(entries@),
{
    let mut total: u64 = 0;
    let mut i: usize = 0;
    while i < entries.len()
        invariant
            i <= entries@.len(),
            entries_size(entries@) <= u64::MAX,
            total == entries_size(entries@.take(i as int)),
        decreases entries@.len() - i,
    {
        proof {
            assert(entries@.take(i + 1).drop_last() == entries@.take(i as int));
            lemma_prefix_entries_size(entries@, i + 1);
        }
        total = total + entries[i].size;
        i = i + 1;
    }
    proof {
        assert(entries@.take(entries@.len() as int) == entries@);
    }
    total
}

proof fn lemma_prefix_entries_size(entries: Seq<FileEntry>, k: int)
    requires
        0 <= k <= entries.len(),
    ensures
        entries_size(entries.take(k)) <= entries_size(entries),
    decreases entries.len() - k,
{
    if k < entries.len() {
        lemma_prefix_entries_size(entries, k + 1);
        assert(entries.take(k + 1).drop_last() == entries.take(k));
    } else {
        assert(entries.take(k) == entries);
    }
}

/// The summary of a finished scan: how many files and bytes were scanned,
/// the groups found, and the bytes all groups together could free.
pub fn summarize(
    entries: &Vec<FileEntry>,
    exact_groups: Vec<DuplicateGroup>,
    media_groups: Vec<DuplicateGroup>,
    elapsed_ms: u64,
    ffmpeg_available: bool,
) -> (r: ScanSummary)
    requires
        entries_size(entries@) <= u64::MAX,
        groups_reclaimable(exact_groups@) + groups_reclaimable(media_groups@) <= u64::MAX,
    ensures
        r.files_scanned == entries@.len(),
        r.bytes_scanned == entries_size(entries@),
        r.exact_groups@ == exact_groups@,
        r.media_groups@ == media_groups@,
        r.reclaimable_bytes == groups_reclaimable(exact_groups@) + groups_reclaimable(media_groups@),
        r.elapsed_ms == elapsed_ms,
        r.ffmpeg_available == ffmpeg_available,
{
    let bytes_scanned = total_size(entries);
    let exact = crate::model::sum_reclaimable(&exact_groups);
    let media = crate::model::sum_reclaimable(&media_groups);
    ScanSummary {
        files_scanned: entries.len() as u64,
        bytes_scanned,
        exact_groups,
        media_groups,
        reclaimable_bytes: exact + media,
        elapsed_ms,
        ffmpeg_available,
    }
}

/// The dropped paths that name folders, in their order; `is_folder[i]` tells
/// whether `paths[i]` names a folder.
pub fn select_folders(paths: Vec<String>, is_folder: &Vec<bool>) -> (r: Vec<String>)
    requires
        is_folder@.len() == paths@.len(),
    ensures
        r@.map_values(|p: String| p@) == folders_among(paths@, is_folder@),
{
    let mut out: Vec<String> = Vec::new();
    let mut i: usize = 0;
    while i < paths.len()
        invariant
            i <= paths@.len(),
            is_folder@.len() == paths@.len(),
            out@.map_values(|p: String| p@) == folders_among(paths@.take(i as int), is_folder@.take(i as int)),
        decreases paths@.len() - i,
    {
        proof {
            assert(paths@.take(i + 1).drop_last() == paths@.take(i as int));
            assert(is_folder@.take(i + 1).drop_last() == is_folder@.take(i as int));
        }
        if is_folder[i] {
            out.push(paths[i].clone());
        }
        i = i + 1;
    }
    proof {
        assert(paths@.take(paths@.len() as int) == paths@);
        assert(is_folder@.take(paths@.len() as int) == is_folder@);
    }
    out
}

/// The texts of the paths that are flagged as folders, in their order.
pub open spec fn folders_among(paths: Seq<String>, is_folder: Seq<bool>) -> Seq<Seq<char>>
    decreases paths.len(),
{
    if paths.len() == 0 {
        Seq::empty()
    } else {
        let rest = folders_among(paths.drop_last(), is_folder.drop_last());
        if is_folder.last() {
            rest.push(paths.last()@)
        } else {
            rest
        }
    }
}

} // verus!
