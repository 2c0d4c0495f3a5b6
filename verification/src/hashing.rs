//! The decisions of the exact-duplicate search: which files are worth
//! hashing, which sample matches need a full digest, and how full digests
//! form duplicate groups. Reading files and hashing them in parallel happens
//! around these steps.

use vstd::prelude::*;
use vstd::hash_map::StringHashMap;
use crate::digest::{digest_words, digest_words_of, lemma_digest_words_injective};
use crate::grouping::{
    class_lt,
    classes_of, distinct_items, group_classes, has_classmate, item_in_groups, items_by_flag,
    lemma_class_items_distinct, same_class, Key,
};
use crate::model::{files_size, largest_size, DuplicateFile, DuplicateGroup, FileEntry, MediaInfo};
use crate::sums::{lemma_picked_sum, lemma_sum_constant, picked, sum_of};

verus! {

/// Another entry has the same size as entry `i`.
pub open spec fn shares_size(entries: Seq<FileEntry>, i: int) -> bool {
    exists|j: int| 0 <= j < entries.len() && j != i && (#[trigger] entries[j]).size == entries[i].size
}

/// Every key carries its own position as item number.
pub open spec fn numbered(keys: Seq<Key>) -> bool {
    forall|k: int| 0 <= k < keys.len() ==> (#[trigger] keys[k]).6 == k
}

proof fn lemma_numbered_distinct(keys: Seq<Key>)
    requires
        numbered(keys),
    ensures
        distinct_items(keys),
{
    assert forall|i: int, j: int| 0 <= i < keys.len() && 0 <= j < keys.len() && i != j implies (#[trigger] keys[i]).6
        != (#[trigger] keys[j]).6 by {}
}

/// A member of a class of numbered keys is the key at its own position, and
/// it shares its class with another key.
proof fn lemma_member_of_numbered(keys: Seq<Key>, groups: Seq<Seq<Key>>, g: int, m: int)
    requires
        numbered(keys),
        classes_of(keys, groups),
        0 <= g < groups.len(),
        0 <= m < groups[g].len(),
    ensures
        0 <= groups[g][m].6 < keys.len(),
        groups[g][m] == keys[groups[g][m].6 as int],
        has_classmate(keys, groups[g][m].6 as int),
{
    let x = groups[g][m];
    assert(keys.contains(x));
    let i = choose|i: int| 0 <= i < keys.len() && keys[i] == x;
    assert(keys[i].6 == i);
    let n = if m == 0 { 1int } else { 0int };
    assert(groups[g].len() >= 2);
    let y = groups[g][n];
    assert(keys.contains(y));
    let j = choose|j: int| 0 <= j < keys.len() && keys[j] == y;
    if m < n {
        assert(groups[g][m].6 != groups[g][n].6);
    } else {
        assert(groups[g][n].6 != groups[g][m].6);
    }
    assert(same_class(x, groups[g][0]) && same_class(y, groups[g][0]));
    assert(keys[j].6 == j);
    assert(j != i && same_class(keys[j], keys[i]));
}

/// The key by which entry `i` is grouped with the entries of the same size.
pub open spec fn size_key(entries: Seq<FileEntry>, i: int) -> Key {
    (entries[i].size, 0, 0, 0, 0, 0, i as usize)
}

/// The indices of the entries whose size some other entry shares: only those
/// can have an exact duplicate, so only they are worth hashing.
pub fn exact_candidates(entries: &Vec<FileEntry>) -> (r: Vec<usize>)
    ensures
        r@.no_duplicates(),
        forall|i: usize| r@.contains(i) <==> (i < entries.len() && shares_size(entries@, i as int)),
{
    let mut keys: Vec<Key> = Vec::new();
    let mut i: usize = 0;
    while i < entries.len()
        invariant
            i <= entries.len(),
            keys@.len() == i,
            forall|k: int| 0 <= k < i ==> #[trigger] keys@[k] == size_key(entries@, k),
        decreases entries.len() - i,
    {
        keys.push((entries[i].size, 0, 0, 0, 0, 0, i));
        i = i + 1;
    }
    let ghost ks = keys@;
    proof {
        assert(numbered(ks));
        lemma_numbered_distinct(ks);
    }
    let groups = group_classes(keys);
    let ghost view = groups@.map_values(|g: Vec<Key>| g@);
    proof {
        lemma_class_items_distinct(ks, view);
        assert forall|g: int| 0 <= g < groups@.len() implies (#[trigger] groups@[g])@.len() > 0 by {
            assert(view[g].len() >= 2);
        }
    }
    let (_, all) = items_by_flag(&groups);
    proof {
        assert forall|i: usize| all@.contains(i) <==> (i < entries.len() && shares_size(entries@, i as int)) by {
            if all@.contains(i) {
                let (g, m) = choose|g: int, m: int|
                    0 <= g < view.len() && 0 <= m < view[g].len() && (#[trigger] view[g][m]).6 == i && (view[g][0].5 == 1)
                        == false;
                lemma_member_of_numbered(ks, view, g, m);
                let j = choose|j: int| 0 <= j < ks.len() && j != i && same_class(#[trigger] ks[j], ks[i as int]);
                assert(entries@[j].size == entries@[i as int].size);
            }
            if i < entries.len() && shares_size(entries@, i as int) {
                let j = choose|j: int| 0 <= j < entries.len() && j != i && (#[trigger] entries@[j]).size == entries@[i as int].size;
                assert(same_class(ks[j], ks[i as int]));
                assert(has_classmate(ks, i as int));
                let (g, m) = choose|g: int, m: int|
                    0 <= g < view.len() && 0 <= m < view[g].len() && #[trigger] view[g][m] == ks[i as int];
                assert(view[g][0].5 == 0);
                assert(item_in_groups(view, i, false));
            }
        }
    }
    all
}

/// A sample digest of an entry: the entry's index, the digest, and whether
/// the digest covers the whole file.
pub type SampleHash = (usize, [u8; 32], bool);

/// The sample digests that were taken: for each candidate entry, in order,
/// its digest and whether it covers the whole file, when its file could be
/// read (`sampled[k]` for `candidates[k]`).
pub open spec fn sample_list(candidates: Seq<usize>, sampled: Seq<Option<([u8; 32], bool)>>) -> Seq<SampleHash>
    decreases candidates.len(),
{
    if candidates.len() == 0 {
        Seq::empty()
    } else {
        let rest = sample_list(candidates.drop_last(), sampled.drop_last());
        match sampled.last() {
            Some((d, whole)) => rest.push((candidates.last(), d, whole)),
            None => rest,
        }
    }
}

/// No two sample digests belong to one entry.
pub open spec fn samples_distinct(samples: Seq<SampleHash>) -> bool {
    forall|p: int, q: int| 0 <= p < q < samples.len() ==> (#[trigger] samples[p]).0 != (#[trigger] samples[q]).0
}

proof fn lemma_sample_list_from(candidates: Seq<usize>, sampled: Seq<Option<([u8; 32], bool)>>)
    requires
        sampled.len() == candidates.len(),
    ensures
        forall|p: int| 0 <= p < sample_list(candidates, sampled).len() ==> candidates.contains(
            (#[trigger] sample_list(candidates, sampled)[p]).0,
        ),
        candidates.no_duplicates() ==> samples_distinct(sample_list(candidates, sampled)),
    decreases candidates.len(),
{
    if candidates.len() > 0 {
        let c = candidates.drop_last();
        lemma_sample_list_from(c, sampled.drop_last());
        let rest = sample_list(c, sampled.drop_last());
        let all = sample_list(candidates, sampled);
        assert forall|p: int| 0 <= p < all.len() implies candidates.contains((#[trigger] all[p]).0) by {
            if p < rest.len() {
                assert(all[p] == rest[p]);
                let k = choose|k: int| 0 <= k < c.len() && c[k] == rest[p].0;
                assert(candidates[k] == c[k]);
            } else {
                assert(candidates[candidates.len() - 1] == candidates.last());
            }
        }
        if candidates.no_duplicates() {
            assert(c.no_duplicates()) by {
                assert forall|i: int, j: int| 0 <= i < c.len() && 0 <= j < c.len() && i != j implies c[i] != c[j] by {
                    assert(c[i] == candidates[i] && c[j] == candidates[j]);
                }
            }
            assert forall|p: int, q: int| 0 <= p < q < all.len() implies (#[trigger] all[p]).0 != (#[trigger] all[q]).0 by {
                if q < rest.len() {
                    assert(all[p] == rest[p] && all[q] == rest[q]);
                } else {
                    assert(all[p] == rest[p]);
                    assert(all[q].0 == candidates.last());
                    let k = choose|k: int| 0 <= k < c.len() && c[k] == rest[p].0;
                    assert(candidates[k] == c[k]);
                    assert(candidates[candidates.len() - 1] == candidates.last());
                }
            }
        }
    }
}

/// Gathers the sample digests that were taken, in candidate order. When the
/// candidates are distinct entries, so are the entries of the samples.
pub fn collect_samples(candidates: &Vec<usize>, sampled: &Vec<Option<([u8; 32], bool)>>) -> (r: Vec<SampleHash>)
    requires
        sampled.len() == candidates.len(),
    ensures
        r@ == sample_list(candidates@, sampled@),
        candidates@.no_duplicates() ==> samples_distinct(r@),
{
    let mut out: Vec<SampleHash> = Vec::new();
    let mut k: usize = 0;
    while k < candidates.len()
        invariant
            k <= candidates.len(),
            sampled.len() == candidates.len(),
            out@ == sample_list(candidates@.take(k as int), sampled@.take(k as int)),
        decreases candidates.len() - k,
    {
        proof {
            assert(candidates@.take(k + 1).drop_last() == candidates@.take(k as int));
            assert(sampled@.take(k + 1).drop_last() == sampled@.take(k as int));
        }
        match sampled[k] {
            Some((d, whole)) => out.push((candidates[k], d, whole)),
            None => {},
        }
        k = k + 1;
    }
    proof {
        assert(candidates@.take(candidates.len() as int) == candidates@);
        assert(sampled@.take(candidates.len() as int) == sampled@);
        lemma_sample_list_from(candidates@, sampled@);
    }
    out
}

/// The key by which sample `p` is grouped: size, digest and coverage.
pub open spec fn sample_key(entries: Seq<FileEntry>, samples: Seq<SampleHash>, p: int) -> Key {
    let w = digest_words(samples[p].1@);
    (entries[samples[p].0 as int].size, w.0, w.1, w.2, w.3, if samples[p].2 { 1u64 } else { 0u64 }, p as usize)
}

/// Samples `p` and `q` are of files of one size, with equal digests of equal coverage.
pub open spec fn samples_match(entries: Seq<FileEntry>, samples: Seq<SampleHash>, p: int, q: int) -> bool {
    &&& entries[samples[p].0 as int].size == entries[samples[q].0 as int].size
    &&& samples[p].1@ == samples[q].1@
    &&& samples[p].2 == samples[q].2
}

/// Some other sample matches sample `p`.
pub open spec fn sample_paired(entries: Seq<FileEntry>, samples: Seq<SampleHash>, p: int) -> bool {
    exists|q: int| 0 <= q < samples.len() && q != p && #[trigger] samples_match(entries, samples, q, p)
}

proof fn lemma_sample_class(entries: Seq<FileEntry>, samples: Seq<SampleHash>, p: int, q: int)
    requires
        0 <= p < samples.len(),
        0 <= q < samples.len(),
    ensures
        same_class(sample_key(entries, samples, p), sample_key(entries, samples, q)) <==> samples_match(
            entries,
            samples,
            p,
            q,
        ),
{
    lemma_digest_words_injective(samples[p].1@, samples[q].1@);
}

/// Sorts sample digests into the two kinds of matches that matter: positions
/// (into `samples`) of whole-file digests that some other sample matches,
/// which need no further hashing, and positions of partial digests that some
/// other sample matches, which need a full digest to confirm. Unmatched
/// samples appear in neither.
pub fn split_samples(entries: &Vec<FileEntry>, samples: &Vec<SampleHash>) -> (r: (Vec<usize>, Vec<usize>))
    requires
        forall|p: int| 0 <= p < samples.len() ==> (#[trigger] samples@[p]).0 < entries.len(),
    ensures
        r.0@.no_duplicates(),
        r.1@.no_duplicates(),
        forall|p: usize|
            r.0@.contains(p) <==> (p < samples.len() && samples@[p as int].2 && sample_paired(entries@, samples@, p as int)),
        forall|p: usize|
            r.1@.contains(p) <==> (p < samples.len() && !samples@[p as int].2 && sample_paired(
                entries@,
                samples@,
                p as int,
            )),
{
    let mut keys: Vec<Key> = Vec::new();
    let mut p: usize = 0;
    while p < samples.len()
        invariant
            p <= samples.len(),
            keys@.len() == p,
            forall|q: int| 0 <= q < samples.len() ==> (#[trigger] samples@[q]).0 < entries.len(),
            forall|k: int| 0 <= k < p ==> #[trigger] keys@[k] == sample_key(entries@, samples@, k),
        decreases samples.len() - p,
    {
        let sample = &samples[p];
        let w = digest_words_of(&sample.1);
        let flag: u64 = if sample.2 { 1 } else { 0 };
        keys.push((entries[sample.0].size, w.0, w.1, w.2, w.3, flag, p));
        p = p + 1;
    }
    let ghost ks = keys@;
    proof {
        assert(numbered(ks));
        lemma_numbered_distinct(ks);
    }
    let groups = group_classes(keys);
    let ghost view = groups@.map_values(|g: Vec<Key>| g@);
    proof {
        lemma_class_items_distinct(ks, view);
        assert forall|g: int| 0 <= g < groups@.len() implies (#[trigger] groups@[g])@.len() > 0 by {
            assert(view[g].len() >= 2);
        }
    }
    let (whole, partial) = items_by_flag(&groups);
    proof {
        assert forall|p: usize| 0 <= p < samples.len() implies (has_classmate(ks, p as int) <==> sample_paired(
            entries@,
            samples@,
            p as int,
        )) by {
            if has_classmate(ks, p as int) {
                let q = choose|q: int| 0 <= q < ks.len() && q != p && same_class(#[trigger] ks[q], ks[p as int]);
                lemma_sample_class(entries@, samples@, q, p as int);
            }
            if sample_paired(entries@, samples@, p as int) {
                let q = choose|q: int|
                    0 <= q < samples.len() && q != p && #[trigger] samples_match(entries@, samples@, q, p as int);
                lemma_sample_class(entries@, samples@, q, p as int);
                assert(same_class(ks[q], ks[p as int]));
            }
        }
        assert forall|p: usize, flag: bool| #[trigger] item_in_groups(view, p, flag) <==> (p < samples.len()
            && has_classmate(ks, p as int) && (samples@[p as int].2 == flag)) by {
            if item_in_groups(view, p, flag) {
                let (g, m) = choose|g: int, m: int|
                    0 <= g < view.len() && 0 <= m < view[g].len() && (#[trigger] view[g][m]).6 == p && (view[g][0].5 == 1)
                        == flag;
                lemma_member_of_numbered(ks, view, g, m);
                assert(same_class(view[g][m], view[g][0]));
            }
            if p < samples.len() && has_classmate(ks, p as int) && (samples@[p as int].2 == flag) {
                let (g, m) = choose|g: int, m: int|
                    0 <= g < view.len() && 0 <= m < view[g].len() && #[trigger] view[g][m] == ks[p as int];
                assert(same_class(view[g][m], view[g][0]));
                assert(item_in_groups(view, p, flag));
            }
        }
    }
    (whole, partial)
}

/// A full digest of an entry: the entry's index and the digest.
pub type FullHash = (usize, [u8; 32]);

/// The full digests of the whole-file samples at positions `whole`, in order.
pub open spec fn whole_digests(samples: Seq<SampleHash>, whole: Seq<usize>) -> Seq<FullHash> {
    whole.map_values(|p: usize| (samples[p as int].0, samples[p as int].1))
}

/// The full digests read again for the partial samples at positions
/// `partial` (`rehashed[k]` for `partial[k]`), in order; a file that could not
/// be read again is left out.
pub open spec fn rehashed_digests(
    samples: Seq<SampleHash>,
    partial: Seq<usize>,
    rehashed: Seq<Option<[u8; 32]>>,
) -> Seq<FullHash>
    decreases partial.len(),
{
    if partial.len() == 0 {
        Seq::empty()
    } else {
        let rest = rehashed_digests(samples, partial.drop_last(), rehashed.drop_last());
        match rehashed.last() {
            Some(d) => rest.push((samples[partial.last() as int].0, d)),
            None => rest,
        }
    }
}

/// No two full digests belong to one entry.
pub open spec fn digests_distinct(hashed: Seq<FullHash>) -> bool {
    forall|p: int, q: int| 0 <= p < q < hashed.len() ==> (#[trigger] hashed[p]).0 != (#[trigger] hashed[q]).0
}

proof fn lemma_rehashed_from(samples: Seq<SampleHash>, partial: Seq<usize>, rehashed: Seq<Option<[u8; 32]>>)
    requires
        rehashed.len() == partial.len(),
    ensures
        forall|i: int| 0 <= i < rehashed_digests(samples, partial, rehashed).len() ==> exists|k: int|
            0 <= k < partial.len() && (#[trigger] rehashed_digests(samples, partial, rehashed)[i]).0 == samples[partial[k] as int].0,
        partial.no_duplicates() && samples_distinct(samples) && (forall|k: int| 0 <= k < partial.len() ==> #[trigger] partial[k] < samples.len())
            ==> digests_distinct(rehashed_digests(samples, partial, rehashed)),
    decreases partial.len(),
{
    if partial.len() > 0 {
        let pr = partial.drop_last();
        lemma_rehashed_from(samples, pr, rehashed.drop_last());
        let rest = rehashed_digests(samples, pr, rehashed.drop_last());
        let all = rehashed_digests(samples, partial, rehashed);
        assert forall|i: int| 0 <= i < all.len() implies exists|k: int|
            0 <= k < partial.len() && (#[trigger] all[i]).0 == samples[partial[k] as int].0 by {
            if i < rest.len() {
                assert(all[i] == rest[i]);
                let k = choose|k: int| 0 <= k < pr.len() && rest[i].0 == samples[pr[k] as int].0;
                assert(partial[k] == pr[k]);
            } else {
                assert(all[i].0 == samples[partial[partial.len() - 1] as int].0);
            }
        }
        if partial.no_duplicates() && samples_distinct(samples) && (forall|k: int| 0 <= k < partial.len() ==> #[trigger] partial[k] < samples.len()) {
            assert(pr.no_duplicates()) by {
                assert forall|i: int, j: int| 0 <= i < pr.len() && 0 <= j < pr.len() && i != j implies pr[i] != pr[j] by {
                    assert(pr[i] == partial[i] && pr[j] == partial[j]);
                }
            }
            assert forall|k: int| 0 <= k < pr.len() implies #[trigger] pr[k] < samples.len() by {
                assert(pr[k] == partial[k]);
            }
            assert forall|p: int, q: int| 0 <= p < q < all.len() implies (#[trigger] all[p]).0 != (#[trigger] all[q]).0 by {
                if q < rest.len() {
                    assert(all[p] == rest[p] && all[q] == rest[q]);
                } else {
                    assert(all[p] == rest[p]);
                    let last = partial.len() - 1;
                    assert(all[q].0 == samples[partial[last] as int].0);
                    let k = choose|k: int| 0 <= k < pr.len() && rest[p].0 == samples[pr[k] as int].0;
                    assert(pr[k] == partial[k]);
                    assert(partial[k] != partial[last]);
                    assert(partial[k] < samples.len() && partial[last] < samples.len());
                    if partial[k] < partial[last] {
                        assert(samples[partial[k] as int].0 != samples[partial[last] as int].0);
                    } else {
                        assert(samples[partial[last] as int].0 != samples[partial[k] as int].0);
                    }
                }
            }
        }
    }
}

/// The full digests to group: each matched whole-file sample digest as it
/// is, then, for each matched partial sample, the digest of its whole file
/// read again (`rehashed[k]` for `partial[k]`); a file that could not be read
/// again is left out, so a partial match never stands for a full one. When
/// the samples belong to distinct entries and `whole` and `partial` name
/// distinct samples, each entry has at most one full digest.
pub fn confirmed_digests(
    samples: &Vec<SampleHash>,
    whole: &Vec<usize>,
    partial: &Vec<usize>,
    rehashed: &Vec<Option<[u8; 32]>>,
) -> (r: Vec<FullHash>)
    requires
        forall|k: int| 0 <= k < whole.len() ==> #[trigger] whole@[k] < samples.len(),
        forall|k: int| 0 <= k < partial.len() ==> #[trigger] partial@[k] < samples.len(),
        rehashed.len() == partial.len(),
    ensures
        r@ == whole_digests(samples@, whole@) + rehashed_digests(samples@, partial@, rehashed@),
        samples_distinct(samples@) && whole@.no_duplicates() && partial@.no_duplicates()
            && (forall|p: usize| !(whole@.contains(p) && partial@.contains(p))) ==> digests_distinct(r@),
{
    let mut out: Vec<FullHash> = Vec::new();
    let mut k: usize = 0;
    while k < whole.len()
        invariant
            k <= whole.len(),
            forall|i: int| 0 <= i < whole.len() ==> #[trigger] whole@[i] < samples.len(),
            out@ == whole_digests(samples@, whole@.take(k as int)),
        decreases whole.len() - k,
    {
        let p = whole[k];
        out.push((samples[p].0, samples[p].1));
        proof {
            assert(whole_digests(samples@, whole@.take(k + 1)) =~= whole_digests(samples@, whole@.take(k as int)).push(
                (samples@[p as int].0, samples@[p as int].1),
            ));
        }
        k = k + 1;
    }
    proof {
        assert(whole@.take(whole.len() as int) == whole@);
    }
    let ghost first = out@;
    let mut k: usize = 0;
    while k < partial.len()
        invariant
            k <= partial.len(),
            rehashed.len() == partial.len(),
            forall|i: int| 0 <= i < partial.len() ==> #[trigger] partial@[i] < samples.len(),
            first == whole_digests(samples@, whole@),
            out@ == first + rehashed_digests(samples@, partial@.take(k as int), rehashed@.take(k as int)),
        decreases partial.len() - k,
    {
        proof {
            assert(partial@.take(k + 1).drop_last() == partial@.take(k as int));
            assert(rehashed@.take(k + 1).drop_last() == rehashed@.take(k as int));
        }
        match rehashed[k] {
            Some(d) => {
                out.push((samples[partial[k]].0, d));
            },
            None => {},
        }
        k = k + 1;
    }
    proof {
        assert(partial@.take(partial.len() as int) == partial@);
        assert(rehashed@.take(partial.len() as int) == rehashed@);
        lemma_rehashed_from(samples@, partial@, rehashed@);
        let w = whole_digests(samples@, whole@);
        let rh = rehashed_digests(samples@, partial@, rehashed@);
        if samples_distinct(samples@) && whole@.no_duplicates() && partial@.no_duplicates()
            && (forall|p: usize| !(whole@.contains(p) && partial@.contains(p))) {
            assert forall|p: int, q: int| 0 <= p < q < out@.len() implies (#[trigger] out@[p]).0 != (#[trigger] out@[q]).0 by {
                let a = if p < w.len() { whole@[p] as int } else {
                    let k = choose|k: int| 0 <= k < partial.len() && rh[p - w.len()].0 == samples@[partial@[k] as int].0;
                    partial@[k] as int
                };
                let b = if q < w.len() { whole@[q] as int } else {
                    let k = choose|k: int| 0 <= k < partial.len() && rh[q - w.len()].0 == samples@[partial@[k] as int].0;
                    partial@[k] as int
                };
                assert(out@[p].0 == samples@[a].0);
                assert(out@[q].0 == samples@[b].0);
                if q < w.len() {
                    assert(whole@[p] != whole@[q]);
                } else if p < w.len() {
                    assert(whole@.contains(whole@[p]));
                    assert(partial@.contains(b as usize));
                    assert(a != b);
                } else {
                    assert(rh[p - w.len()].0 != rh[q - w.len()].0);
                }
                if a != b {
                    if a < b {
                        assert(samples@[a].0 != samples@[b].0);
                    } else {
                        assert(samples@[b].0 != samples@[a].0);
                    }
                }
            }
        }
    }
    out
}

/// The key by which full digest `p` is grouped: size and digest.
pub open spec fn full_key(entries: Seq<FileEntry>, hashed: Seq<FullHash>, p: int) -> Key {
    let w = digest_words(hashed[p].1@);
    (entries[hashed[p].0 as int].size, w.0, w.1, w.2, w.3, 0u64, p as usize)
}

/// The keys of all full digests, by position.
pub open spec fn full_keys(entries: Seq<FileEntry>, hashed: Seq<FullHash>) -> Seq<Key> {
    Seq::new(hashed.len(), |p: int| full_key(entries, hashed, p))
}

/// The sizes of the entries of the full digests, by position.
pub open spec fn hashed_sizes(entries: Seq<FileEntry>, hashed: Seq<FullHash>) -> Seq<nat> {
    Seq::new(hashed.len(), |p: int| entries[hashed[p].0 as int].size as nat)
}

/// Entry `i` as a member of a duplicate group, with the media details that
/// `lookup` holds for its path.
pub open spec fn file_for(entries: Seq<FileEntry>, lookup: Map<Seq<char>, MediaInfo>, i: int) -> DuplicateFile {
    DuplicateFile {
        entry: entries[i],
        media: if lookup.contains_key(entries[i].path@) {
            Some(lookup[entries[i].path@])
        } else {
            None
        },
    }
}

/// `groups` are the classes `cls` of full digests, as groups of the entries
/// the digests belong to; each frees the size of all but one of its files.
pub open spec fn groups_of_classes(
    groups: Seq<DuplicateGroup>,
    cls: Seq<Seq<Key>>,
    entries: Seq<FileEntry>,
    lookup: Map<Seq<char>, MediaInfo>,
    hashed: Seq<FullHash>,
) -> bool {
    &&& groups.len() == cls.len()
    &&& forall|g: int|
        0 <= g < groups.len() ==> {
            &&& (#[trigger] groups[g]).files@.len() == cls[g].len()
            &&& forall|m: int|
                0 <= m < cls[g].len() ==> groups[g].files@[m] == file_for(
                    entries,
                    lookup,
                    hashed[(#[trigger] cls[g][m]).6 as int].0 as int,
                )
            &&& groups[g].reclaimable_bytes == entries[hashed[cls[g][0].6 as int].0 as int].size * (cls[g].len() - 1)
        }
}

/// An exact-duplicate group holds at least two files, all of one size, and
/// records the bytes that deleting all but its largest file would free.
pub open spec fn exact_group(group: DuplicateGroup) -> bool {
    &&& group.files@.len() > 1
    &&& forall|m: int| 0 <= m < group.files@.len() ==> (#[trigger] group.files@[m]).entry.size == group.files@[0].entry.size
    &&& group.reclaimable_bytes == files_size(group.files@) - largest_size(group.files@)
}

proof fn lemma_uniform_sizes(files: Seq<DuplicateFile>, c: u64)
    requires
        forall|m: int| 0 <= m < files.len() ==> (#[trigger] files[m]).entry.size == c,
    ensures
        files_size(files) == c * files.len(),
        files.len() > 0 ==> largest_size(files) == c,
    decreases files.len(),
{
    if files.len() > 0 {
        assert forall|m: int| 0 <= m < files.drop_last().len() implies (#[trigger] files.drop_last()[m]).entry.size == c by {
            assert(files.drop_last()[m] == files[m]);
        }
        lemma_uniform_sizes(files.drop_last(), c);
        assert(files.last().entry.size == files[files.len() - 1].entry.size);
        if files.len() == 1 {
            assert(largest_size(files.drop_last()) == 0);
        }
        assert(c * files.len() == c * (files.len() - 1) + c) by (nonlinear_arith)
            requires
                files.len() > 0,
        ;
    }
}

/// The groups that `group_exact` builds are exact-duplicate groups, and the
/// files of each group share one full digest.
pub proof fn lemma_exact_groups_consistent(
    groups: Seq<DuplicateGroup>,
    cls: Seq<Seq<Key>>,
    entries: Seq<FileEntry>,
    lookup: Map<Seq<char>, MediaInfo>,
    hashed: Seq<FullHash>,
)
    requires
        hashed.len() <= usize::MAX,
        forall|p: int| 0 <= p < hashed.len() ==> (#[trigger] hashed[p]).0 < entries.len(),
        classes_of(full_keys(entries, hashed), cls),
        groups_of_classes(groups, cls, entries, lookup, hashed),
    ensures
        forall|g: int| 0 <= g < groups.len() ==> exact_group(#[trigger] groups[g]),
        forall|g: int, m: int|
            0 <= g < cls.len() && 0 <= m < cls[g].len() ==> (#[trigger] cls[g][m]).6 < hashed.len()
                && hashed[cls[g][m].6 as int].1@ == hashed[cls[g][0].6 as int].1@,
{
    let ks = full_keys(entries, hashed);
    assert(numbered(ks));
    assert forall|g: int, m: int| 0 <= g < cls.len() && 0 <= m < cls[g].len() implies (#[trigger] cls[g][m]).6
        < hashed.len() && hashed[cls[g][m].6 as int].1@ == hashed[cls[g][0].6 as int].1@ by {
        lemma_member_of_numbered(ks, cls, g, m);
        lemma_member_of_numbered(ks, cls, g, 0);
        assert(same_class(cls[g][m], cls[g][0]));
        lemma_digest_words_injective(hashed[cls[g][m].6 as int].1@, hashed[cls[g][0].6 as int].1@);
    }
    assert forall|g: int| 0 <= g < groups.len() implies exact_group(#[trigger] groups[g]) by {
        let files = groups[g].files@;
        let c = entries[hashed[cls[g][0].6 as int].0 as int].size;
        lemma_member_of_numbered(ks, cls, g, 0);
        assert forall|m: int| 0 <= m < files.len() implies (#[trigger] files[m]).entry.size == c by {
            lemma_member_of_numbered(ks, cls, g, m);
            assert(same_class(cls[g][m], cls[g][0]));
            assert(files[m] == file_for(entries, lookup, hashed[cls[g][m].6 as int].0 as int));
        }
        lemma_uniform_sizes(files, c);
        assert(files[0].entry.size == c);
        assert(c * files.len() - c == c * (files.len() - 1)) by (nonlinear_arith);
    }
}

/// Any two files with one size and one full digest end up in the same
/// exact-duplicate group.
pub proof fn lemma_exact_groups_complete(
    groups: Seq<DuplicateGroup>,
    cls: Seq<Seq<Key>>,
    entries: Seq<FileEntry>,
    lookup: Map<Seq<char>, MediaInfo>,
    hashed: Seq<FullHash>,
    p: int,
    q: int,
)
    requires
        hashed.len() <= usize::MAX,
        forall|k: int| 0 <= k < hashed.len() ==> (#[trigger] hashed[k]).0 < entries.len(),
        classes_of(full_keys(entries, hashed), cls),
        groups_of_classes(groups, cls, entries, lookup, hashed),
        0 <= p < hashed.len(),
        0 <= q < hashed.len(),
        p != q,
        entries[hashed[p].0 as int].size == entries[hashed[q].0 as int].size,
        hashed[p].1@ == hashed[q].1@,
    ensures
        exists|g: int, m: int, n: int|
            0 <= g < groups.len() && 0 <= m < groups[g].files@.len() && 0 <= n < groups[g].files@.len()
                && #[trigger] groups[g].files@[m] == file_for(entries, lookup, hashed[p].0 as int)
                && #[trigger] groups[g].files@[n] == file_for(entries, lookup, hashed[q].0 as int),
{
    let ks = full_keys(entries, hashed);
    assert(numbered(ks));
    assert(same_class(ks[q], ks[p]));
    assert(has_classmate(ks, p));
    assert(has_classmate(ks, q)) by {
        assert(same_class(ks[p], ks[q]));
    }
    let (g, m) = choose|g: int, m: int| 0 <= g < cls.len() && 0 <= m < cls[g].len() && #[trigger] cls[g][m] == ks[p];
    let (h, n) = choose|h: int, n: int| 0 <= h < cls.len() && 0 <= n < cls[h].len() && #[trigger] cls[h][n] == ks[q];
    assert(same_class(cls[g][m], cls[g][0]));
    assert(same_class(cls[h][n], cls[h][0]));
    if g < h {
        assert(class_lt(cls[g][0], cls[h][0]));
        lemma_class_lt_respects_class(cls[g][0], cls[h][0], ks[p], ks[q]);
    } else if h < g {
        assert(class_lt(cls[h][0], cls[g][0]));
        lemma_class_lt_respects_class(cls[h][0], cls[g][0], ks[q], ks[p]);
    }
    assert(groups[g].files@[m] == file_for(entries, lookup, hashed[cls[g][m].6 as int].0 as int));
    assert(groups[g].files@[n] == file_for(entries, lookup, hashed[cls[g][n].6 as int].0 as int));
}

/// When the full digests belong to distinct entries, each entry is in at most
/// one exact-duplicate group, and at most once there: the files at two
/// different places of the groups come from different entries.
pub proof fn lemma_exact_groups_disjoint(
    groups: Seq<DuplicateGroup>,
    cls: Seq<Seq<Key>>,
    entries: Seq<FileEntry>,
    lookup: Map<Seq<char>, MediaInfo>,
    hashed: Seq<FullHash>,
    g: int,
    m: int,
    h: int,
    n: int,
)
    requires
        hashed.len() <= usize::MAX,
        forall|k: int| 0 <= k < hashed.len() ==> (#[trigger] hashed[k]).0 < entries.len(),
        digests_distinct(hashed),
        classes_of(full_keys(entries, hashed), cls),
        groups_of_classes(groups, cls, entries, lookup, hashed),
        0 <= g < groups.len(),
        0 <= h < groups.len(),
        0 <= m < groups[g].files@.len(),
        0 <= n < groups[h].files@.len(),
        g != h || m != n,
    ensures
        groups[g].files@[m] == file_for(entries, lookup, hashed[cls[g][m].6 as int].0 as int),
        groups[h].files@[n] == file_for(entries, lookup, hashed[cls[h][n].6 as int].0 as int),
        hashed[cls[g][m].6 as int].0 != hashed[cls[h][n].6 as int].0,
{
    let ks = full_keys(entries, hashed);
    assert(numbered(ks));
    lemma_member_of_numbered(ks, cls, g, m);
    lemma_member_of_numbered(ks, cls, h, n);
    let a = cls[g][m].6 as int;
    let b = cls[h][n].6 as int;
    if g == h {
        if m < n {
            assert(cls[g][m].6 != cls[g][n].6);
        } else {
            assert(cls[g][n].6 != cls[g][m].6);
        }
    } else {
        assert(same_class(cls[g][m], cls[g][0]));
        assert(same_class(cls[h][n], cls[h][0]));
        if g < h {
            assert(class_lt(cls[g][0], cls[h][0]));
            lemma_class_lt_respects_class(cls[g][0], cls[h][0], cls[g][m], cls[h][n]);
        } else {
            assert(class_lt(cls[h][0], cls[g][0]));
            lemma_class_lt_respects_class(cls[h][0], cls[g][0], cls[h][n], cls[g][m]);
        }
        assert(a != b);
    }
    assert(a != b);
    if a < b {
        assert(hashed[a].0 != hashed[b].0);
    } else {
        assert(hashed[b].0 != hashed[a].0);
    }
}

/// A file whose size no other entry has is never grouped: when the full
/// digests belong to distinct entries, every entry in an exact-duplicate
/// group shares its size with another entry. Together with
/// `exact_candidates`, which leaves such files out of the files read, the
/// groups do not depend on the contents of files of unique size.
pub proof fn lemma_grouped_entries_share_sizes(
    groups: Seq<DuplicateGroup>,
    cls: Seq<Seq<Key>>,
    entries: Seq<FileEntry>,
    lookup: Map<Seq<char>, MediaInfo>,
    hashed: Seq<FullHash>,
    g: int,
    m: int,
)
    requires
        hashed.len() <= usize::MAX,
        forall|k: int| 0 <= k < hashed.len() ==> (#[trigger] hashed[k]).0 < entries.len(),
        digests_distinct(hashed),
        classes_of(full_keys(entries, hashed), cls),
        groups_of_classes(groups, cls, entries, lookup, hashed),
        0 <= g < groups.len(),
        0 <= m < groups[g].files@.len(),
    ensures
        groups[g].files@[m] == file_for(entries, lookup, hashed[cls[g][m].6 as int].0 as int),
        shares_size(entries, hashed[cls[g][m].6 as int].0 as int),
{
    let n = if m == 0 { 1int } else { 0int };
    assert(cls[g].len() >= 2);
    lemma_exact_groups_disjoint(groups, cls, entries, lookup, hashed, g, m, g, n);
    lemma_exact_groups_consistent(groups, cls, entries, lookup, hashed);
    assert(exact_group(groups[g]));
    let a = hashed[cls[g][m].6 as int].0 as int;
    let b = hashed[cls[g][n].6 as int].0 as int;
    assert(groups[g].files@[m].entry.size == groups[g].files@[0].entry.size);
    assert(groups[g].files@[n].entry.size == groups[g].files@[0].entry.size);
    assert(entries[b].size == entries[a].size);
}

proof fn lemma_class_lt_respects_class(a: Key, b: Key, x: Key, y: Key)
    requires
        class_lt(a, b),
        same_class(x, a),
        same_class(y, b),
    ensures
        !same_class(x, y),
{
}

/// Groups full digests into exact-duplicate groups: the entries whose files
/// have one size and one digest form a group when there are at least two.
pub fn group_exact(entries: &Vec<FileEntry>, lookup: &StringHashMap<MediaInfo>, hashed: &Vec<FullHash>) -> (r: Vec<
    DuplicateGroup,
>)
    requires
        forall|p: int| 0 <= p < hashed.len() ==> (#[trigger] hashed@[p]).0 < entries.len(),
        sum_of(hashed_sizes(entries@, hashed@)) <= u64::MAX,
    ensures
        exists|cls: Seq<Seq<Key>>|
            classes_of(full_keys(entries@, hashed@), cls) && #[trigger] groups_of_classes(
                r@,
                cls,
                entries@,
                lookup@,
                hashed@,
            ),
        forall|g: int| 0 <= g < r@.len() ==> exact_group(#[trigger] r@[g]),
{
    let mut keys: Vec<Key> = Vec::new();
    let mut p: usize = 0;
    while p < hashed.len()
        invariant
            p <= hashed.len(),
            keys@.len() == p,
            forall|q: int| 0 <= q < hashed.len() ==> (#[trigger] hashed@[q]).0 < entries.len(),
            forall|k: int| 0 <= k < p ==> #[trigger] keys@[k] == full_key(entries@, hashed@, k),
        decreases hashed.len() - p,
    {
        let w = digest_words_of(&hashed[p].1);
        keys.push((entries[hashed[p].0].size, w.0, w.1, w.2, w.3, 0, p));
        p = p + 1;
    }
    let ghost ks = keys@;
    proof {
        assert(ks == full_keys(entries@, hashed@));
        assert(numbered(ks));
        lemma_numbered_distinct(ks);
    }
    let classes = group_classes(keys);
    let ghost cls = classes@.map_values(|g: Vec<Key>| g@);
    let mut out: Vec<DuplicateGroup> = Vec::new();
    let mut g: usize = 0;
    while g < classes.len()
        invariant
            g <= classes.len(),
            cls == classes@.map_values(|g: Vec<Key>| g@),
            ks == full_keys(entries@, hashed@),
            numbered(ks),
            classes_of(ks, cls),
            forall|q: int| 0 <= q < hashed.len() ==> (#[trigger] hashed@[q]).0 < entries.len(),
            sum_of(hashed_sizes(entries@, hashed@)) <= u64::MAX,
            groups_of_classes(out@, cls.take(g as int), entries@, lookup@, hashed@),
        decreases classes.len() - g,
    {
        let class = &classes[g];
        assert(cls[g as int] == class@);
        let mut files: Vec<DuplicateFile> = Vec::new();
        let mut m: usize = 0;
        while m < class.len()
            invariant
                g < classes.len(),
                m <= class@.len(),
                class@ == cls[g as int],
                cls == classes@.map_values(|g: Vec<Key>| g@),
                ks == full_keys(entries@, hashed@),
                numbered(ks),
                classes_of(ks, cls),
                forall|q: int| 0 <= q < hashed.len() ==> (#[trigger] hashed@[q]).0 < entries.len(),
                files@.len() == m,
                forall|n: int|
                    0 <= n < m ==> #[trigger] files@[n] == file_for(entries@, lookup@, hashed@[cls[g as int][n].6 as int].0 as int),
            decreases class@.len() - m,
        {
            proof {
                lemma_member_of_numbered(ks, cls, g as int, m as int);
            }
            let index = hashed[class[m].6].0;
            let entry = entries[index].duplicate();
            let media = match lookup.get(entry.path.as_str()) {
                Some(info) => Some(info.duplicate()),
                None => None,
            };
            files.push(DuplicateFile { entry, media });
            m = m + 1;
        }
        proof {
            lemma_member_of_numbered(ks, cls, g as int, 0);
            let ps = cls[g as int].map_values(|k: Key| k.6 as int);
            let w = hashed_sizes(entries@, hashed@);
            let c = entries@[hashed@[cls[g as int][0].6 as int].0 as int].size as nat;
            assert(ps.no_duplicates()) by {
                assert forall|i: int, j: int| 0 <= i < ps.len() && 0 <= j < ps.len() && i != j implies ps[i] != ps[j] by {
                    if i < j {
                        assert(cls[g as int][i].6 != cls[g as int][j].6);
                    } else {
                        assert(cls[g as int][j].6 != cls[g as int][i].6);
                    }
                }
            }
            assert forall|i: int| 0 <= i < ps.len() implies 0 <= #[trigger] ps[i] < w.len() by {
                lemma_member_of_numbered(ks, cls, g as int, i);
            }
            assert forall|i: int| 0 <= i < ps.len() implies #[trigger] picked(w, ps)[i] == c by {
                lemma_member_of_numbered(ks, cls, g as int, i);
                assert(same_class(cls[g as int][i], cls[g as int][0]));
            }
            lemma_picked_sum(w, ps);
            lemma_sum_constant(picked(w, ps), c);
            assert(c * (ps.len() - 1) <= c * ps.len()) by (nonlinear_arith)
                requires
                    ps.len() >= 1,
            ;
        }
        let size = entries[hashed[class[0].6].0].size;
        let count = class.len() as u64;
        let group = DuplicateGroup { files, reclaimable_bytes: size * (count - 1) };
        let ghost before = out@;
        out.push(group);
        proof {
            assert(cls.take(g + 1).drop_last() == cls.take(g as int));
            assert forall|h: int| 0 <= h < out@.len() implies {
                &&& (#[trigger] out@[h]).files@.len() == cls.take(g + 1)[h].len()
                &&& forall|m: int|
                    0 <= m < cls.take(g + 1)[h].len() ==> out@[h].files@[m] == file_for(
                        entries@,
                        lookup@,
                        hashed@[(#[trigger] cls.take(g + 1)[h][m]).6 as int].0 as int,
                    )
                &&& out@[h].reclaimable_bytes == entries@[hashed@[cls.take(g + 1)[h][0].6 as int].0 as int].size * (
                cls.take(g + 1)[h].len() - 1)
            } by {
                if h < before.len() {
                    assert(out@[h] == before[h]);
                    assert(cls.take(g + 1)[h] == cls.take(g as int)[h]);
                }
            }
        }
        g = g + 1;
    }
    proof {
        assert(cls.take(classes.len() as int) == cls);
        lemma_exact_groups_consistent(out@, cls, entries@, lookup@, hashed@);
    }
    out
}

} // verus!
