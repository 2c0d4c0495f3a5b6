//! The scan data model and the bookkeeping that keeps a scan result
//! consistent after files have been removed from disk.

use vstd::prelude::*;
use vstd::hash_set::StringHashSet;

verus! {

/// A regular file found while walking the scanned folders.
#[derive(Clone, Debug)]
pub struct FileEntry {
    pub path: String,
    pub size: u64,
    /// Modification time in seconds since the Unix epoch, when known.
    pub modified: Option<i64>,
}

impl FileEntry {
    /// A copy of this entry, field for field.
    pub fn duplicate(&self) -> (r: Self)
        ensures
            r == *self,
    {
        FileEntry { path: self.path.clone(), size: self.size, modified: self.modified }
    }
}

/// Sum of the sizes of the given entries.
pub open spec fn entries_size(entries: Seq<FileEntry>) -> nat
    decreases entries.len(),
{
    if entries.len() == 0 {
        0
    } else {
        entries_size(entries.drop_last()) + entries.last().size as nat
    }
}

/// Whether a media file carries a video or only an audio stream.
#[derive(Clone, Copy, Debug, PartialEq, Eq, Structural)]
pub enum MediaKind {
    Video,
    Audio,
}

/// What probing a media file revealed. Durations are whole microseconds.
#[derive(Clone, Debug)]
pub struct MediaInfo {
    pub kind: MediaKind,
    pub duration_micros: u64,
    pub width: Option<u32>,
    pub height: Option<u32>,
    pub codec: Option<String>,
}

impl MediaInfo {
    /// A copy of this record, field for field.
    pub fn duplicate(&self) -> (r: Self)
        ensures
            r == *self,
    {
        let codec = match &self.codec {
            Some(c) => Some(c.clone()),
            None => None,
        };
        MediaInfo {
            kind: self.kind,
            duration_micros: self.duration_micros,
            width: self.width,
            height: self.height,
            codec,
        }
    }
}

/// A file that belongs to a duplicate group, with its media details when it was probed.
#[derive(Clone, Debug)]
pub struct DuplicateFile {
    pub entry: FileEntry,
    pub media: Option<MediaInfo>,
}

impl DuplicateFile {
    /// A copy of this record, field for field.
    pub fn duplicate(&self) -> (r: Self)
        ensures
            r == *self,
    {
        let media = match &self.media {
            Some(m) => Some(m.duplicate()),
            None => None,
        };
        DuplicateFile { entry: self.entry.duplicate(), media }
    }
}

/// Files believed to hold the same content, and the bytes that removing all
/// but the largest of them would free.
#[derive(Clone, Debug)]
pub struct DuplicateGroup {
    pub files: Vec<DuplicateFile>,
    pub reclaimable_bytes: u64,
}

/// The outcome of a scan.
#[derive(Clone, Debug)]
pub struct ScanSummary {
    pub files_scanned: u64,
    pub bytes_scanned: u64,
    pub exact_groups: Vec<DuplicateGroup>,
    pub media_groups: Vec<DuplicateGroup>,
    pub reclaimable_bytes: u64,
    pub elapsed_ms: u64,
    pub ffmpeg_available: bool,
}

/// What the user asked to scan. The duration tolerance is in microseconds.
#[derive(Clone, Debug)]
pub struct ScanOptions {
    pub folders: Vec<String>,
    pub duration_tolerance_micros: u64,
    pub min_file_size: u64,
    pub include_hidden: bool,
}

/// Progress notices sent while a scan runs.
#[derive(Clone, Debug)]
pub enum ScanProgress {
    Walking { folder: String, files_found: u64 },
    Hashing { done: u64, total: u64 },
    Probing { done: u64, total: u64 },
}

/// Sum of the sizes of the files of a group.
pub open spec fn files_size(files: Seq<DuplicateFile>) -> nat
    decreases files.len(),
{
    if files.len() == 0 {
        0
    } else {
        files_size(files.drop_last()) + files.last().entry.size as nat
    }
}

/// Size of the largest file of a group; 0 for no files.
pub open spec fn largest_size(files: Seq<DuplicateFile>) -> nat
    decreases files.len(),
{
    if files.len() == 0 {
        0
    } else {
        let rest = largest_size(files.drop_last());
        if files.last().entry.size > rest { files.last().entry.size as nat } else { rest }
    }
}

/// Bytes that deleting every copy but the largest would free.
pub open spec fn reclaimable(files: Seq<DuplicateFile>) -> nat {
    (files_size(files) - largest_size(files)) as nat
}

/// The largest file of a group is no larger than all its files together.
pub proof fn lemma_largest_within_total(files: Seq<DuplicateFile>)
    ensures
        largest_size(files) <= files_size(files),
    decreases files.len(),
{
    if files.len() > 0 {
        lemma_largest_within_total(files.drop_last());
    }
}

/// The reclaimable byte count of a group with the given files.
pub(crate) fn reclaimable_of(files: &Vec<DuplicateFile>) -> (r: u64)
    requires
        files_size(files@) <= u64::MAX,
    ensures
        r == reclaimable(files@),
{
    let mut total: u64 = 0;
    let mut max: u64 = 0;
    let mut i: usize = 0;
    while i < files.len()
        invariant
            i <= files.len(),
            files_size(files@) <= u64::MAX,
            total == files_size(files@.take(i as int)),
            max == largest_size(files@.take(i as int)),
        decreases files.len() - i,
    {
        proof {
            assert(files@.take(i + 1).drop_last() == files@.take(i as int));
            lemma_prefix_size(files@, i as int + 1);
        }
        total = total + files[i].entry.size;
        if files[i].entry.size > max {
            max = files[i].entry.size;
        }
        i = i + 1;
    }
    proof {
        assert(files@.take(files.len() as int) == files@);
        lemma_largest_within_total(files@);
    }
    total - max
}

/// The first files of a group are no larger together than all of them.
pub proof fn lemma_prefix_size(files: Seq<DuplicateFile>, k: int)
    requires
        0 <= k <= files.len(),
    ensures
        files_size(files.take(k)) <= files_size(files),
    decreases files.len() - k,
{
    if k < files.len() {
        lemma_prefix_size(files, k + 1);
        assert(files.take(k + 1).drop_last() == files.take(k));
    } else {
        assert(files.take(k) == files);
    }
}

proof fn lemma_without_clean(files: Seq<DuplicateFile>, removed: Set<Seq<char>>)
    ensures
        forall|j: int|
            0 <= j < without(files, removed).len() ==> !removed.contains(
                #[trigger] without(files, removed)[j].entry.path@,
            ),
        without(files, removed).len() <= files.len(),
    decreases files.len(),
{
    if files.len() > 0 {
        lemma_without_clean(files.drop_last(), removed);
    }
}

/// After removal every remaining group still pairs at least two files, and none
/// of them is one of the removed paths.
pub proof fn lemma_pruned_groups_are_clean(groups: Seq<DuplicateGroup>, removed: Set<Seq<char>>)
    ensures
        forall|i: int|
            0 <= i < pruned(groups, removed).len() ==> (#[trigger] pruned(groups, removed)[i]).len() > 1,
        forall|i: int, j: int|
            0 <= i < pruned(groups, removed).len() && 0 <= j < pruned(groups, removed)[i].len()
                ==> !removed.contains(#[trigger] pruned(groups, removed)[i][j].entry.path@),
    decreases groups.len(),
{
    if groups.len() > 0 {
        lemma_pruned_groups_are_clean(groups.drop_last(), removed);
        lemma_without_clean(groups.last().files@, removed);
    }
}

proof fn lemma_without_twice(files: Seq<DuplicateFile>, first: Set<Seq<char>>, second: Set<Seq<char>>)
    ensures
        without(without(files, first), second) == without(files, first.union(second)),
    decreases files.len(),
{
    if files.len() > 0 {
        lemma_without_twice(files.drop_last(), first, second);
        let rest = without(files.drop_last(), first);
        if !first.contains(files.last().entry.path@) {
            assert(rest.push(files.last()).drop_last() == rest);
        }
    }
}

/// Removing one set of paths and then another leaves the same groups as
/// removing both sets at once; in particular, removing the same paths a second
/// time changes nothing.
pub proof fn lemma_removal_composes(
    groups: Seq<DuplicateGroup>,
    after_first: Seq<DuplicateGroup>,
    first: Set<Seq<char>>,
    second: Set<Seq<char>>,
)
    requires
        holds_lists(after_first, pruned(groups, first)),
    ensures
        pruned(after_first, second) == pruned(groups, first.union(second)),
    decreases groups.len(),
{
    if groups.len() > 0 {
        let rest_lists = pruned(groups.drop_last(), first);
        let kept = without(groups.last().files@, first);
        lemma_without_twice(groups.last().files@, first, second);
        lemma_without_clean(kept, second);
        if kept.len() > 1 {
            let n = after_first.len() - 1;
            assert(after_first[n].files@ == kept);
            assert(holds_lists(after_first.drop_last(), rest_lists)) by {
                assert forall|i: int| 0 <= i < after_first.drop_last().len() implies
                    #[trigger] after_first.drop_last()[i].files@ == rest_lists[i]
                    && after_first.drop_last()[i].reclaimable_bytes == reclaimable(rest_lists[i]) by {
                    assert(after_first[i].files@ == pruned(groups, first)[i]);
                }
            }
            lemma_removal_composes(groups.drop_last(), after_first.drop_last(), first, second);
        } else {
            lemma_removal_composes(groups.drop_last(), after_first, first, second);
        }
    }
}

proof fn lemma_without_absent(files: Seq<DuplicateFile>, removed: Set<Seq<char>>)
    requires
        forall|j: int| 0 <= j < files.len() ==> !removed.contains(#[trigger] files[j].entry.path@),
    ensures
        without(files, removed) == files,
    decreases files.len(),
{
    if files.len() > 0 {
        assert forall|j: int| 0 <= j < files.drop_last().len() implies !removed.contains(
            #[trigger] files.drop_last()[j].entry.path@,
        ) by {
            assert(files.drop_last()[j] == files[j]);
        }
        lemma_without_absent(files.drop_last(), removed);
        assert(files.drop_last().push(files.last()) == files);
    }
}

/// Removing paths that no group holds (in particular, removing nothing) keeps
/// every consistent group as it was: each still pairs the same files and
/// records the same reclaimable byte count.
pub proof fn lemma_removing_absent_paths(groups: Seq<DuplicateGroup>, removed: Set<Seq<char>>)
    requires
        forall|i: int| 0 <= i < groups.len() ==> clean_group(#[trigger] groups[i], removed),
    ensures
        holds_lists(groups, pruned(groups, removed)),
    decreases groups.len(),
{
    if groups.len() > 0 {
        let rest = groups.drop_last();
        assert forall|i: int| 0 <= i < rest.len() implies clean_group(#[trigger] rest[i], removed) by {
            assert(rest[i] == groups[i]);
        }
        lemma_removing_absent_paths(rest, removed);
        let last = groups[groups.len() - 1];
        assert(clean_group(last, removed));
        lemma_without_absent(last.files@, removed);
        let lists = pruned(groups, removed);
        assert forall|i: int| 0 <= i < groups.len() implies #[trigger] groups[i].files@ == lists[i]
            && groups[i].reclaimable_bytes == reclaimable(lists[i]) by {
            if i < rest.len() {
                assert(groups[i] == rest[i]);
            }
        }
    }
}

/// `after` is what removing the paths `removed` makes of `before`: each kind
/// of group holds the pruned file lists with their reclaimable byte counts,
/// the total is their sum, and the other fields are kept.
pub open spec fn removal_result(before: ScanSummary, after: ScanSummary, removed: Set<Seq<char>>) -> bool {
    &&& holds_lists(after.exact_groups@, pruned(before.exact_groups@, removed))
    &&& holds_lists(after.media_groups@, pruned(before.media_groups@, removed))
    &&& after.reclaimable_bytes == groups_reclaimable(after.exact_groups@) + groups_reclaimable(after.media_groups@)
    &&& after.files_scanned == before.files_scanned
    &&& after.bytes_scanned == before.bytes_scanned
    &&& after.elapsed_ms == before.elapsed_ms
    &&& after.ffmpeg_available == before.ffmpeg_available
}

/// Removing paths twice is removing both sets at once: if `middle` is what
/// removing `first` makes of `start`, and `end` what removing `second` makes
/// of `middle`, then `end` is what removing both makes of `start`. Removing
/// the same paths again changes no group and no count.
pub proof fn lemma_remove_paths_composes(
    start: ScanSummary,
    middle: ScanSummary,
    end: ScanSummary,
    first: Set<Seq<char>>,
    second: Set<Seq<char>>,
)
    requires
        removal_result(start, middle, first),
        removal_result(middle, end, second),
    ensures
        removal_result(start, end, first.union(second)),
        first == second ==> end.exact_groups@.len() == middle.exact_groups@.len() && end.media_groups@.len()
            == middle.media_groups@.len() && end.reclaimable_bytes == middle.reclaimable_bytes,
        first == second ==> forall|i: int|
            0 <= i < end.exact_groups@.len() ==> (#[trigger] end.exact_groups@[i]).files@
                == middle.exact_groups@[i].files@ && end.exact_groups@[i].reclaimable_bytes
                == middle.exact_groups@[i].reclaimable_bytes,
        first == second ==> forall|i: int|
            0 <= i < end.media_groups@.len() ==> (#[trigger] end.media_groups@[i]).files@
                == middle.media_groups@[i].files@ && end.media_groups@[i].reclaimable_bytes
                == middle.media_groups@[i].reclaimable_bytes,
{
    lemma_removal_composes(start.exact_groups@, middle.exact_groups@, first, second);
    lemma_removal_composes(start.media_groups@, middle.media_groups@, first, second);
    if first == second {
        assert(first.union(second) =~= first);
        lemma_holds_lists_reclaimable(end.exact_groups@, pruned(start.exact_groups@, first));
        lemma_holds_lists_reclaimable(middle.exact_groups@, pruned(start.exact_groups@, first));
        lemma_holds_lists_reclaimable(end.media_groups@, pruned(start.media_groups@, first));
        lemma_holds_lists_reclaimable(middle.media_groups@, pruned(start.media_groups@, first));
    }
}

/// Sets a group's reclaimable byte count from its files.
fn recompute_group(group: &mut DuplicateGroup)
    requires
        files_size(old(group).files@) <= u64::MAX,
    ensures
        final(group).files == old(group).files,
        final(group).reclaimable_bytes == reclaimable(old(group).files@),
{
    group.reclaimable_bytes = reclaimable_of(&group.files);
}

/// The files of a group whose paths are not in `removed`, in their order.
pub open spec fn without(files: Seq<DuplicateFile>, removed: Set<Seq<char>>) -> Seq<DuplicateFile>
    decreases files.len(),
{
    if files.len() == 0 {
        Seq::empty()
    } else {
        let rest = without(files.drop_last(), removed);
        if removed.contains(files.last().entry.path@) {
            rest
        } else {
            rest.push(files.last())
        }
    }
}

/// The file lists that remain of `groups` once `removed` is taken out of each,
/// keeping only those that still hold more than one file, in their order.
pub open spec fn pruned(groups: Seq<DuplicateGroup>, removed: Set<Seq<char>>) -> Seq<Seq<DuplicateFile>>
    decreases groups.len(),
{
    if groups.len() == 0 {
        Seq::empty()
    } else {
        let rest = pruned(groups.drop_last(), removed);
        let kept = without(groups.last().files@, removed);
        if kept.len() > 1 {
            rest.push(kept)
        } else {
            rest
        }
    }
}

/// `groups` hold exactly the file lists `lists`, each with its reclaimable byte count.
pub open spec fn holds_lists(groups: Seq<DuplicateGroup>, lists: Seq<Seq<DuplicateFile>>) -> bool {
    &&& groups.len() == lists.len()
    &&& forall|i: int|
        0 <= i < groups.len() ==> #[trigger] groups[i].files@ == lists[i]
            && groups[i].reclaimable_bytes == reclaimable(lists[i])
}

/// A group pairs at least two files, none of them removed, and records the
/// bytes that deleting all but its largest file would free.
pub open spec fn clean_group(group: DuplicateGroup, removed: Set<Seq<char>>) -> bool {
    &&& group.files@.len() > 1
    &&& forall|j: int| 0 <= j < group.files@.len() ==> !removed.contains(#[trigger] group.files@[j].entry.path@)
    &&& group.reclaimable_bytes == files_size(group.files@) - largest_size(group.files@)
}

/// The files each group keeps once `removed` is taken out add up to at most
/// `u64::MAX` bytes, group by group.
pub open spec fn kept_sizes_fit(groups: Seq<DuplicateGroup>, removed: Set<Seq<char>>) -> bool {
    forall|i: int| 0 <= i < groups.len() ==> files_size(without(#[trigger] groups[i].files@, removed)) <= u64::MAX
}

/// Sum of the reclaimable byte counts that the groups record.
pub open spec fn groups_reclaimable(groups: Seq<DuplicateGroup>) -> nat
    decreases groups.len(),
{
    if groups.len() == 0 {
        0
    } else {
        groups_reclaimable(groups.drop_last()) + groups.last().reclaimable_bytes as nat
    }
}

/// Sum of the bytes reclaimable from each list.
pub open spec fn lists_reclaimable(lists: Seq<Seq<DuplicateFile>>) -> nat
    decreases lists.len(),
{
    if lists.len() == 0 {
        0
    } else {
        lists_reclaimable(lists.drop_last()) + reclaimable(lists.last())
    }
}

proof fn lemma_holds_lists_reclaimable(groups: Seq<DuplicateGroup>, lists: Seq<Seq<DuplicateFile>>)
    requires
        holds_lists(groups, lists),
    ensures
        groups_reclaimable(groups) == lists_reclaimable(lists),
    decreases groups.len(),
{
    if groups.len() > 0 {
        let n = groups.len() - 1;
        assert(groups[n].files@ == lists[n]);
        assert(holds_lists(groups.drop_last(), lists.drop_last())) by {
            assert forall|i: int| 0 <= i < groups.drop_last().len() implies
                #[trigger] groups.drop_last()[i].files@ == lists.drop_last()[i]
                && groups.drop_last()[i].reclaimable_bytes == reclaimable(lists.drop_last()[i]) by {
                assert(groups[i].files@ == lists[i]);
            }
        }
        lemma_holds_lists_reclaimable(groups.drop_last(), lists.drop_last());
    }
}

/// The files of `files` whose paths are not in `removed`.
fn files_without(files: &Vec<DuplicateFile>, removed: &StringHashSet) -> (r: Vec<DuplicateFile>)
    ensures
        r@ == without(files@, removed@),
{
    let mut kept: Vec<DuplicateFile> = Vec::new();
    let mut i: usize = 0;
    while i < files.len()
        invariant
            i <= files.len(),
            kept@ == without(files@.take(i as int), removed@),
        decreases files.len() - i,
    {
        proof {
            assert(files@.take(i + 1).drop_last() == files@.take(i as int));
        }
        if !removed.contains(files[i].entry.path.as_str()) {
            kept.push(files[i].duplicate());
        }
        i = i + 1;
    }
    proof {
        assert(files@.take(files.len() as int) == files@);
    }
    kept
}

/// The groups that remain of `groups` once `removed` is taken out of each.
fn prune_groups(groups: &Vec<DuplicateGroup>, removed: &StringHashSet) -> (r: Vec<DuplicateGroup>)
    requires
        kept_sizes_fit(groups@, removed@),
    ensures
        holds_lists(r@, pruned(groups@, removed@)),
{
    let mut result: Vec<DuplicateGroup> = Vec::new();
    let mut i: usize = 0;
    while i < groups.len()
        invariant
            i <= groups.len(),
            kept_sizes_fit(groups@, removed@),
            holds_lists(result@, pruned(groups@.take(i as int), removed@)),
        decreases groups.len() - i,
    {
        let ghost prefix = groups@.take(i as int);
        let ghost next = groups@.take(i + 1);
        proof {
            assert(next.drop_last() == prefix);
            assert(next.last() == groups@[i as int]);
            assert(files_size(without(groups@[i as int].files@, removed@)) <= u64::MAX);
            assert(pruned(next, removed@) == if without(next.last().files@, removed@).len() > 1 {
                pruned(prefix, removed@).push(without(next.last().files@, removed@))
            } else {
                pruned(prefix, removed@)
            });
        }
        let mut group = DuplicateGroup { files: files_without(&groups[i].files, removed), reclaimable_bytes: 0 };
        if group.files.len() > 1 {
            recompute_group(&mut group);
            let ghost before = result@;
            result.push(group);
            proof {
                assert forall|j: int| 0 <= j < result@.len() implies
                    #[trigger] result@[j].files@ == pruned(next, removed@)[j]
                    && result@[j].reclaimable_bytes == reclaimable(pruned(next, removed@)[j]) by {
                    if j < before.len() {
                        assert(result@[j] == before[j]);
                    }
                }
            }
        }
        i = i + 1;
    }
    proof {
        assert(groups@.take(groups.len() as int) == groups@);
    }
    result
}

/// Sum of the reclaimable byte counts of the groups.
pub(crate) fn sum_reclaimable(groups: &Vec<DuplicateGroup>) -> (r: u64)
    requires
        groups_reclaimable(groups@) <= u64::MAX,
    ensures
        r == groups_reclaimable(groups@),
{
    let mut total: u64 = 0;
    let mut i: usize = 0;
    while i < groups.len()
        invariant
            i <= groups.len(),
            groups_reclaimable(groups@) <= u64::MAX,
            total == groups_reclaimable(groups@.take(i as int)),
        decreases groups.len() - i,
    {
        proof {
            assert(groups@.take(i + 1).drop_last() == groups@.take(i as int));
            lemma_groups_reclaimable_prefix(groups@, i + 1);
        }
        total = total + groups[i].reclaimable_bytes;
        i = i + 1;
    }
    proof {
        assert(groups@.take(groups.len() as int) == groups@);
    }
    total
}

proof fn lemma_groups_reclaimable_prefix(groups: Seq<DuplicateGroup>, k: int)
    requires
        0 <= k <= groups.len(),
    ensures
        groups_reclaimable(groups.take(k)) <= groups_reclaimable(groups),
    decreases groups.len() - k,
{
    if k < groups.len() {
        lemma_groups_reclaimable_prefix(groups, k + 1);
        assert(groups.take(k + 1).drop_last() == groups.take(k));
    } else {
        assert(groups.take(k) == groups);
    }
}

/// Drops the given paths from every group (used after a trash or delete
/// operation), removes the groups that no longer have a duplicate partner, and
/// recomputes the reclaimable byte counts to match.
pub fn remove_paths(summary: &mut ScanSummary, removed: &StringHashSet)
    requires
        kept_sizes_fit(old(summary).exact_groups@, removed@),
        kept_sizes_fit(old(summary).media_groups@, removed@),
        lists_reclaimable(pruned(old(summary).exact_groups@, removed@)) + lists_reclaimable(
            pruned(old(summary).media_groups@, removed@),
        ) <= u64::MAX,
    ensures
        holds_lists(final(summary).exact_groups@, pruned(old(summary).exact_groups@, removed@)),
        holds_lists(final(summary).media_groups@, pruned(old(summary).media_groups@, removed@)),
        final(summary).reclaimable_bytes == groups_reclaimable(final(summary).exact_groups@)
            + groups_reclaimable(final(summary).media_groups@),
        forall|i: int|
            0 <= i < final(summary).exact_groups@.len() ==> clean_group(
                #[trigger] final(summary).exact_groups@[i],
                removed@,
            ),
        forall|i: int|
            0 <= i < final(summary).media_groups@.len() ==> clean_group(
                #[trigger] final(summary).media_groups@[i],
                removed@,
            ),
        final(summary).files_scanned == old(summary).files_scanned,
        final(summary).bytes_scanned == old(summary).bytes_scanned,
        final(summary).elapsed_ms == old(summary).elapsed_ms,
        final(summary).ffmpeg_available == old(summary).ffmpeg_available,
        removal_result(*old(summary), *final(summary), removed@),
{
    let exact = prune_groups(&summary.exact_groups, removed);
    let media = prune_groups(&summary.media_groups, removed);
    proof {
        lemma_holds_lists_reclaimable(exact@, pruned(old(summary).exact_groups@, removed@));
        lemma_holds_lists_reclaimable(media@, pruned(old(summary).media_groups@, removed@));
    }
    proof {
        lemma_pruned_groups_are_clean(old(summary).exact_groups@, removed@);
        lemma_pruned_groups_are_clean(old(summary).media_groups@, removed@);
        assert forall|i: int| 0 <= i < exact@.len() implies clean_group(#[trigger] exact@[i], removed@) by {
            let l = pruned(old(summary).exact_groups@, removed@)[i];
            assert(exact@[i].files@ == l);
            lemma_largest_within_total(l);
            assert(l.len() > 1);
            assert forall|j: int| 0 <= j < l.len() implies !removed@.contains(#[trigger] l[j].entry.path@) by {
                assert(!removed@.contains(pruned(old(summary).exact_groups@, removed@)[i][j].entry.path@));
            }
        }
        assert forall|i: int| 0 <= i < media@.len() implies clean_group(#[trigger] media@[i], removed@) by {
            let l = pruned(old(summary).media_groups@, removed@)[i];
            assert(media@[i].files@ == l);
            lemma_largest_within_total(l);
            assert(l.len() > 1);
            assert forall|j: int| 0 <= j < l.len() implies !removed@.contains(#[trigger] l[j].entry.path@) by {
                assert(!removed@.contains(pruned(old(summary).media_groups@, removed@)[i][j].entry.path@));
            }
        }
    }
    let exact_total = sum_reclaimable(&exact);
    let media_total = sum_reclaimable(&media);
    summary.exact_groups = exact;
    summary.media_groups = media;
    summary.reclaimable_bytes = exact_total + media_total;
}

} // verus!
