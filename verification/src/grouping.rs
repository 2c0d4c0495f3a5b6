//! Grouping of keyed items into classes of equal keys, by sorting.
//!
//! A key is six class components followed by an item number. Items whose
//! class components agree belong to the same class; the item numbers tell the
//! items apart.

use vstd::prelude::*;

verus! {

broadcast use vstd::seq_lib::group_to_multiset_ensures;

/// Six class components and an item number.
pub type Key = (u64, u64, u64, u64, u64, u64, usize);

/// Two keys belong to the same class.
pub open spec fn same_class(a: Key, b: Key) -> bool {
    a.0 == b.0 && a.1 == b.1 && a.2 == b.2 && a.3 == b.3 && a.4 == b.4 && a.5 == b.5
}

/// The class of `a` comes before that of `b` in lexicographic order.
pub open spec fn class_lt(a: Key, b: Key) -> bool {
    ||| a.0 < b.0
    ||| a.0 == b.0 && a.1 < b.1
    ||| a.0 == b.0 && a.1 == b.1 && a.2 < b.2
    ||| a.0 == b.0 && a.1 == b.1 && a.2 == b.2 && a.3 < b.3
    ||| a.0 == b.0 && a.1 == b.1 && a.2 == b.2 && a.3 == b.3 && a.4 < b.4
    ||| a.0 == b.0 && a.1 == b.1 && a.2 == b.2 && a.3 == b.3 && a.4 == b.4 && a.5 < b.5
}

/// `a` is not after `b` in the lexicographic order of all seven components,
/// which is how std orders tuples.
pub open spec fn key_le(a: Key, b: Key) -> bool {
    class_lt(a, b) || (same_class(a, b) && a.6 <= b.6)
}

/// The keys are in ascending order.
pub open spec fn ascending(s: Seq<Key>) -> bool {
    forall|i: int, j: int| 0 <= i < j < s.len() ==> key_le(#[trigger] s[i], #[trigger] s[j])
}

/// No two keys carry the same item number.
pub open spec fn distinct_items(s: Seq<Key>) -> bool {
    forall|i: int, j: int| 0 <= i < s.len() && 0 <= j < s.len() && i != j ==> (#[trigger] s[i]).6 != (#[trigger] s[j]).6
}

/// Some other key of `keys` is in the class of the key at `p`.
pub open spec fn has_classmate(keys: Seq<Key>, p: int) -> bool {
    exists|q: int| 0 <= q < keys.len() && q != p && same_class(#[trigger] keys[q], keys[p])
}

/// `groups` are the classes of `keys` that have at least two members: each
/// group holds keys of `keys` of one class in ascending order, the groups come
/// in ascending order of class, and every key that shares its class with
/// another key is in a group.
pub open spec fn classes_of(keys: Seq<Key>, groups: Seq<Seq<Key>>) -> bool {
    &&& forall|g: int| 0 <= g < groups.len() ==> (#[trigger] groups[g]).len() >= 2
    &&& forall|g: int, m: int|
        0 <= g < groups.len() && 0 <= m < groups[g].len() ==> keys.contains(#[trigger] groups[g][m])
            && same_class(groups[g][m], groups[g][0])
    &&& forall|g: int, m: int, n: int|
        0 <= g < groups.len() && 0 <= m < n < groups[g].len() ==> key_le(
            #[trigger] groups[g][m],
            #[trigger] groups[g][n],
        ) && groups[g][m].6 != groups[g][n].6
    &&& forall|g: int, h: int|
        0 <= g < h < groups.len() ==> class_lt((#[trigger] groups[g])[0], (#[trigger] groups[h])[0])
    &&& forall|p: int|
        0 <= p < keys.len() && has_classmate(keys, p) ==> exists|g: int, m: int|
            0 <= g < groups.len() && 0 <= m < groups[g].len() && #[trigger] groups[g][m] == keys[p]
}

/// Sorts keys ascending with std's `slice::sort_unstable`. Std documents that
/// it sorts the slice in ascending order, which for tuples of integers is
/// the lexicographic order `key_le` describes; the items are only rearranged.
#[verifier::external_body]
fn sort_keys(keys: &mut Vec<Key>)
    ensures
        final(keys)@.to_multiset() == old(keys)@.to_multiset(),
        ascending(final(keys)@),
{
    keys.sort_unstable();
}

proof fn lemma_between_same_class(a: Key, b: Key, c: Key)
    requires
        key_le(a, b),
        key_le(b, c),
        same_class(a, c),
    ensures
        same_class(a, b),
        same_class(b, c),
{
}

proof fn lemma_neighbour_classmate(s: Seq<Key>, k: int, other: int)
    requires
        ascending(s),
        0 <= k < s.len(),
        0 <= other < s.len(),
        other != k,
        same_class(s[k], s[other]),
    ensures
        (k > 0 && same_class(s[k - 1], s[k])) || (k + 1 < s.len() && same_class(s[k], s[k + 1])),
{
    if other < k {
        if other < k - 1 {
            lemma_between_same_class(s[other], s[k - 1], s[k]);
        }
    } else {
        if k + 1 < other {
            lemma_between_same_class(s[k], s[k + 1], s[other]);
        }
    }
}

/// Position `k` of `s` has a neighbour in its class.
pub open spec fn paired(s: Seq<Key>, k: int) -> bool {
    (k > 0 && same_class(s[k - 1], s[k])) || (k + 1 < s.len() && same_class(s[k], s[k + 1]))
}

/// Groups `keys` into the classes that have at least two members.
pub fn group_classes(keys: Vec<Key>) -> (groups: Vec<Vec<Key>>)
    requires
        distinct_items(keys@),
    ensures
        classes_of(keys@, groups@.map_values(|g: Vec<Key>| g@)),
{
    let ghost given = keys@;
    let mut s = keys;
    sort_keys(&mut s);
    let ghost sorted = s@;
    proof {
        assert(given.no_duplicates()) by {
            assert forall|i: int, j: int| 0 <= i < given.len() && 0 <= j < given.len() && i != j
                implies given[i] != given[j] by {
                assert(given[i].6 != given[j].6);
            }
        }
        given.lemma_multiset_has_no_duplicates();
        sorted.lemma_multiset_has_no_duplicates_conv();
        assert forall|x: Key| sorted.contains(x) <==> given.contains(x) by {
            assert(sorted.contains(x) <==> sorted.to_multiset().count(x) > 0);
            assert(given.contains(x) <==> given.to_multiset().count(x) > 0);
        }
    }
    let n = s.len();
    let mut out: Vec<Vec<Key>> = Vec::new();
    let mut cur: Vec<Key> = Vec::new();
    let mut start: usize = 0;
    let mut i: usize = 0;
    while i < n
        invariant
            n == sorted.len(),
            s@ == sorted,
            ascending(sorted),
            sorted.no_duplicates(),
            forall|x: Key| sorted.contains(x) <==> given.contains(x),
            start <= i <= n,
            i == 0 ==> start == 0 && out@.len() == 0,
            i > 0 ==> start < i,
            cur@ == sorted.subrange(start as int, i as int),
            forall|k: int| start <= k < i ==> same_class(#[trigger] sorted[k], sorted[start as int]),
            start > 0 ==> !same_class(sorted[start - 1], sorted[start as int]),
            forall|g: int| 0 <= g < out@.len() ==> (#[trigger] out@[g])@.len() >= 2,
            forall|g: int, m: int|
                0 <= g < out@.len() && 0 <= m < out@[g]@.len() ==> sorted.contains(#[trigger] out@[g]@[m])
                    && same_class(out@[g]@[m], out@[g]@[0]),
            forall|g: int, m: int, p: int|
                0 <= g < out@.len() && 0 <= m < p < out@[g]@.len() ==> key_le(
                    #[trigger] out@[g]@[m],
                    #[trigger] out@[g]@[p],
                ) && out@[g]@[m].6 != out@[g]@[p].6,
            forall|g: int, h: int|
                0 <= g < h < out@.len() ==> class_lt((#[trigger] out@[g])@[0], (#[trigger] out@[h])@[0]),
            i > 0 ==> forall|g: int| 0 <= g < out@.len() ==> class_lt((#[trigger] out@[g])@[0], sorted[start as int]),
            forall|k: int|
                0 <= k < start && paired(sorted, k) ==> in_groups(out@, sorted[k]),
        decreases n - i,
    {
        let key = s[i];
        if i > 0 && same_class_exec(&s[i - 1], &key) {
            cur.push(key);
            proof {
                assert(cur@ == sorted.subrange(start as int, i + 1));
            }
        } else {
            let ghost old_out = out@;
            let ghost old_start = start;
            if cur.len() >= 2 {
                proof {
                    assert forall|m: int, p: int| 0 <= m < p < cur@.len() implies key_le(
                        #[trigger] cur@[m],
                        #[trigger] cur@[p],
                    ) && cur@[m].6 != cur@[p].6 by {
                        assert(cur@[m] == sorted[start + m]);
                        assert(cur@[p] == sorted[start + p]);
                        assert(sorted[start + m] != sorted[start + p]);
                    }
                    assert forall|m: int| 0 <= m < cur@.len() implies sorted.contains(#[trigger] cur@[m])
                        && same_class(cur@[m], cur@[0]) by {
                        assert(cur@[m] == sorted[start + m]);
                    }
                }
                let finished = cur;
                out.push(finished);
            }
            proof {
                if i > 0 {
                    assert(key_le(sorted[i - 1], sorted[i as int]));
                    assert(class_lt(sorted[i - 1], sorted[i as int]));
                    assert(same_class(sorted[i - 1], sorted[old_start as int]));
                    assert forall|g: int| 0 <= g < out@.len() implies class_lt(
                        (#[trigger] out@[g])@[0],
                        sorted[i as int],
                    ) by {
                        if g < old_out.len() {
                            assert(out@[g] == old_out[g]);
                        } else {
                            assert(out@[g]@[0] == sorted[old_start as int]);
                        }
                    }
                }
                assert forall|k: int| 0 <= k < i && paired(sorted, k) implies in_groups(out@, sorted[k]) by {
                    if k < old_start {
                        let (g, m) = choose|g: int, m: int|
                            0 <= g < old_out.len() && 0 <= m < old_out[g]@.len() && #[trigger] old_out[g]@[m] == sorted[k];
                        assert(out@[g] == old_out[g]);
                        assert(out@[g]@[m] == sorted[k]);
                    } else {
                        // the run from old_start to i has at least two members
                        if k > old_start {
                            assert(i - old_start >= 2);
                        } else {
                            if k + 1 < i {
                                assert(i - old_start >= 2);
                            } else {
                                assert(k + 1 == i);
                                assert(!same_class(sorted[k], sorted[k + 1]));
                                assert(false);
                            }
                        }
                        let g = out@.len() - 1;
                        assert(out@[g]@[k - old_start] == sorted[k]);
                    }
                }
            }
            cur = Vec::new();
            cur.push(key);
            start = i;
            proof {
                assert(cur@ == sorted.subrange(start as int, i + 1));
            }
        }
        i = i + 1;
    }
    if cur.len() >= 2 {
        proof {
            assert forall|m: int, p: int| 0 <= m < p < cur@.len() implies key_le(
                #[trigger] cur@[m],
                #[trigger] cur@[p],
            ) && cur@[m].6 != cur@[p].6 by {
                assert(cur@[m] == sorted[start + m]);
                assert(cur@[p] == sorted[start + p]);
                assert(sorted[start + m] != sorted[start + p]);
            }
            assert forall|m: int| 0 <= m < cur@.len() implies sorted.contains(#[trigger] cur@[m])
                && same_class(cur@[m], cur@[0]) by {
                assert(cur@[m] == sorted[start + m]);
            }
        }
        let ghost old_out = out@;
        let finished = cur;
        out.push(finished);
        proof {
            assert forall|k: int| 0 <= k < n && paired(sorted, k) implies in_groups(out@, sorted[k]) by {
                if k < start {
                    let (g, m) = choose|g: int, m: int|
                        0 <= g < old_out.len() && 0 <= m < old_out[g]@.len() && #[trigger] old_out[g]@[m] == sorted[k];
                    assert(out@[g] == old_out[g]);
                    assert(out@[g]@[m] == sorted[k]);
                } else {
                    let g = out@.len() - 1;
                    assert(out@[g]@[k - start] == sorted[k]);
                }
            }
        }
    } else {
        proof {
            assert forall|k: int| 0 <= k < n && paired(sorted, k) implies in_groups(out@, sorted[k]) by {
                if k >= start {
                    if n > 0 {
                        assert(k == start && n == start + 1);
                        if k > 0 {
                            assert(!same_class(sorted[k - 1], sorted[k]));
                        }
                    }
                }
            }
        }
    }
    assert(forall|k: int| 0 <= k < n && paired(sorted, k) ==> in_groups(out@, sorted[k]));
    let ghost view = out@.map_values(|g: Vec<Key>| g@);
    proof {
        assert forall|g: int| 0 <= g < view.len() implies #[trigger] view[g] == out@[g]@ by {}
        assert forall|p: int| 0 <= p < given.len() && has_classmate(given, p) implies exists|g: int, m: int|
            0 <= g < view.len() && 0 <= m < view[g].len() && #[trigger] view[g][m] == given[p] by {
            let q = choose|q: int| 0 <= q < given.len() && q != p && same_class(#[trigger] given[q], given[p]);
            assert(given.contains(given[p]));
            assert(given.contains(given[q]));
            let k = choose|k: int| 0 <= k < sorted.len() && sorted[k] == given[p];
            let k2 = choose|k2: int| 0 <= k2 < sorted.len() && sorted[k2] == given[q];
            assert(given[p].6 != given[q].6);
            lemma_neighbour_classmate(sorted, k, k2);
            assert(paired(sorted, k));
            assert(in_groups(out@, sorted[k]));
            let (g, m) = choose|g: int, m: int|
                0 <= g < out@.len() && 0 <= m < out@[g]@.len() && #[trigger] out@[g]@[m] == sorted[k];
            assert(view[g] == out@[g]@);
            assert(view[g][m] == given[p]);
        }
    }
    out
}

/// `x` is a member of one of the groups.
pub open spec fn in_groups(groups: Seq<Vec<Key>>, x: Key) -> bool {
    exists|g: int, m: int| 0 <= g < groups.len() && 0 <= m < groups[g]@.len() && #[trigger] groups[g]@[m] == x
}

/// Whether two keys belong to the same class.
fn same_class_exec(a: &Key, b: &Key) -> (r: bool)
    ensures
        r == same_class(*a, *b),
{
    a.0 == b.0 && a.1 == b.1 && a.2 == b.2 && a.3 == b.3 && a.4 == b.4 && a.5 == b.5
}

/// The item numbers of the groups are all different.
pub open spec fn items_distinct(groups: Seq<Seq<Key>>) -> bool {
    forall|g: int, m: int, h: int, n: int|
        0 <= g < groups.len() && 0 <= m < groups[g].len() && 0 <= h < groups.len() && 0 <= n < groups[h].len()
            && (g != h || m != n) ==> (#[trigger] groups[g][m]).6 != (#[trigger] groups[h][n]).6
}

proof fn lemma_push_contains(s: Seq<usize>, a: usize)
    ensures
        forall|x: usize| s.push(a).contains(x) <==> (s.contains(x) || x == a),
{
    assert forall|x: usize| s.push(a).contains(x) <==> (s.contains(x) || x == a) by {
        if s.contains(x) {
            let i = choose|i: int| 0 <= i < s.len() && s[i] == x;
            assert(s.push(a)[i] == x);
        }
        if x == a {
            assert(s.push(a)[s.len() as int] == x);
        }
        if s.push(a).contains(x) {
            let i = choose|i: int| 0 <= i < s.push(a).len() && s.push(a)[i] == x;
            if i < s.len() {
                assert(s[i] == x);
            }
        }
    }
}

/// Item `x` is a member of a group whose flag component is set (`flag`) or clear.
pub open spec fn item_in_groups(groups: Seq<Seq<Key>>, x: usize, flag: bool) -> bool {
    exists|g: int, m: int|
        0 <= g < groups.len() && 0 <= m < groups[g].len() && (#[trigger] groups[g][m]).6 == x && (groups[g][0].5
            == 1) == flag
}

/// The classes of keys with distinct item numbers have distinct item numbers.
pub proof fn lemma_class_items_distinct(keys: Seq<Key>, groups: Seq<Seq<Key>>)
    requires
        distinct_items(keys),
        classes_of(keys, groups),
    ensures
        items_distinct(groups),
{
    assert forall|g: int, m: int, h: int, n: int|
        0 <= g < groups.len() && 0 <= m < groups[g].len() && 0 <= h < groups.len() && 0 <= n < groups[h].len()
            && (g != h || m != n) implies (#[trigger] groups[g][m]).6 != (#[trigger] groups[h][n]).6 by {
        if g == h {
            if m < n {
                assert(key_le(groups[g][m], groups[g][n]) && groups[g][m].6 != groups[g][n].6);
            } else {
                assert(key_le(groups[g][n], groups[g][m]) && groups[g][n].6 != groups[g][m].6);
            }
        } else {
            let a = groups[g][m];
            let b = groups[h][n];
            assert(keys.contains(a) && same_class(a, groups[g][0]));
            assert(keys.contains(b) && same_class(b, groups[h][0]));
            if g < h {
                assert(class_lt(groups[g][0], groups[h][0]));
            } else {
                assert(class_lt(groups[h][0], groups[g][0]));
            }
            if a.6 == b.6 {
                let i = choose|i: int| 0 <= i < keys.len() && keys[i] == a;
                let j = choose|j: int| 0 <= j < keys.len() && keys[j] == b;
                if i != j {
                    assert(keys[i].6 != keys[j].6);
                }
            }
        }
    }
}

/// The item numbers of the members of the groups, split by the groups' flag
/// component: those of groups with the flag set come first in the pair.
pub fn items_by_flag(groups: &Vec<Vec<Key>>) -> (r: (Vec<usize>, Vec<usize>))
    requires
        items_distinct(groups@.map_values(|g: Vec<Key>| g@)),
        forall|g: int| 0 <= g < groups@.len() ==> (#[trigger] groups@[g])@.len() > 0,
    ensures
        r.0@.no_duplicates(),
        r.1@.no_duplicates(),
        forall|x: usize| r.0@.contains(x) <==> item_in_groups(groups@.map_values(|g: Vec<Key>| g@), x, true),
        forall|x: usize| r.1@.contains(x) <==> item_in_groups(groups@.map_values(|g: Vec<Key>| g@), x, false),
{
    let ghost view = groups@.map_values(|g: Vec<Key>| g@);
    let mut set: Vec<usize> = Vec::new();
    let mut clear: Vec<usize> = Vec::new();
    let mut g: usize = 0;
    while g < groups.len()
        invariant
            g <= groups.len(),
            view == groups@.map_values(|g: Vec<Key>| g@),
            items_distinct(view),
            forall|h: int| 0 <= h < groups@.len() ==> (#[trigger] groups@[h])@.len() > 0,
            set@.no_duplicates(),
            clear@.no_duplicates(),
            forall|x: usize| set@.contains(x) <==> exists|h: int, n: int|
                0 <= h < g && 0 <= n < view[h].len() && (#[trigger] view[h][n]).6 == x && view[h][0].5 == 1,
            forall|x: usize| clear@.contains(x) <==> exists|h: int, n: int|
                0 <= h < g && 0 <= n < view[h].len() && (#[trigger] view[h][n]).6 == x && view[h][0].5 != 1,
        decreases groups.len() - g,
    {
        let group = &groups[g];
        assert(view[g as int] == group@);
        let flagged = group[0].5 == 1;
        let mut m: usize = 0;
        while m < group.len()
            invariant
                g < groups.len(),
                m <= group@.len(),
                group@ == view[g as int],
                view == groups@.map_values(|g: Vec<Key>| g@),
                items_distinct(view),
                flagged == (view[g as int][0].5 == 1),
                set@.no_duplicates(),
                clear@.no_duplicates(),
                forall|x: usize| set@.contains(x) <==> exists|h: int, n: int|
                    ((0 <= h < g && 0 <= n < view[h].len()) || (h == g && 0 <= n < m)) && (#[trigger] view[h][n]).6 == x
                        && view[h][0].5 == 1,
                forall|x: usize| clear@.contains(x) <==> exists|h: int, n: int|
                    ((0 <= h < g && 0 <= n < view[h].len()) || (h == g && 0 <= n < m)) && (#[trigger] view[h][n]).6 == x
                        && view[h][0].5 != 1,
            decreases group@.len() - m,
        {
            let item = group[m].6;
            proof {
                assert forall|h: int, n: int|
                    ((0 <= h < g && 0 <= n < view[h].len()) || (h == g && 0 <= n < m)) implies (#[trigger] view[h][n]).6
                        != item by {
                    assert(view[g as int][m as int].6 == item);
                }
            }
            proof {
                if set@.contains(item) {
                    let (h, n) = choose|h: int, n: int|
                        ((0 <= h < g && 0 <= n < view[h].len()) || (h == g && 0 <= n < m)) && (#[trigger] view[h][n]).6
                            == item && view[h][0].5 == 1;
                    assert(view[h][n].6 != item);
                }
                if clear@.contains(item) {
                    let (h, n) = choose|h: int, n: int|
                        ((0 <= h < g && 0 <= n < view[h].len()) || (h == g && 0 <= n < m)) && (#[trigger] view[h][n]).6
                            == item && view[h][0].5 != 1;
                    assert(view[h][n].6 != item);
                }
            }
            let ghost before_set = set@;
            let ghost before_clear = clear@;
            if flagged {
                set.push(item);
            } else {
                clear.push(item);
            }
            proof {
                if flagged {
                    lemma_push_contains(before_set, item);
                    assert(clear@ == before_clear);
                } else {
                    lemma_push_contains(before_clear, item);
                    assert(set@ == before_set);
                }
                assert forall|x: usize| set@.contains(x) <==> exists|h: int, n: int|
                    ((0 <= h < g && 0 <= n < view[h].len()) || (h == g && 0 <= n < m + 1)) && (#[trigger] view[h][n]).6
                        == x && view[h][0].5 == 1 by {
                    if set@.contains(x) {
                        if flagged && x == item {
                            assert(view[g as int][m as int].6 == x);
                        } else {
                            assert(before_set.contains(x));
                            let (h, n) = choose|h: int, n: int|
                                ((0 <= h < g && 0 <= n < view[h].len()) || (h == g && 0 <= n < m)) && (#[trigger] view[h][n]).6
                                    == x && view[h][0].5 == 1;
                            assert(view[h][n].6 == x);
                        }
                    }
                    if exists|h: int, n: int|
                        ((0 <= h < g && 0 <= n < view[h].len()) || (h == g && 0 <= n < m + 1)) && (#[trigger] view[h][n]).6
                            == x && view[h][0].5 == 1 {
                        let (h, n) = choose|h: int, n: int|
                            ((0 <= h < g && 0 <= n < view[h].len()) || (h == g && 0 <= n < m + 1)) && (#[trigger] view[h][n]).6
                                == x && view[h][0].5 == 1;
                        if h == g && n == m {
                            assert(x == item && flagged);
                            assert(set@.last() == item);
                        } else {
                            assert(view[h][n].6 == x);
                            assert(before_set.contains(x));
                        }
                    }
                }
                assert forall|x: usize| clear@.contains(x) <==> exists|h: int, n: int|
                    ((0 <= h < g && 0 <= n < view[h].len()) || (h == g && 0 <= n < m + 1)) && (#[trigger] view[h][n]).6
                        == x && view[h][0].5 != 1 by {
                    if clear@.contains(x) {
                        if !flagged && x == item {
                            assert(view[g as int][m as int].6 == x);
                        } else {
                            assert(before_clear.contains(x));
                            let (h, n) = choose|h: int, n: int|
                                ((0 <= h < g && 0 <= n < view[h].len()) || (h == g && 0 <= n < m)) && (#[trigger] view[h][n]).6
                                    == x && view[h][0].5 != 1;
                            assert(view[h][n].6 == x);
                        }
                    }
                    if exists|h: int, n: int|
                        ((0 <= h < g && 0 <= n < view[h].len()) || (h == g && 0 <= n < m + 1)) && (#[trigger] view[h][n]).6
                            == x && view[h][0].5 != 1 {
                        let (h, n) = choose|h: int, n: int|
                            ((0 <= h < g && 0 <= n < view[h].len()) || (h == g && 0 <= n < m + 1)) && (#[trigger] view[h][n]).6
                                == x && view[h][0].5 != 1;
                        if h == g && n == m {
                            assert(x == item && !flagged);
                            assert(clear@.last() == item);
                        } else {
                            assert(view[h][n].6 == x);
                            assert(before_clear.contains(x));
                        }
                    }
                }
            }
            m = m + 1;
        }
        g = g + 1;
    }
    proof {
        assert forall|x: usize| set@.contains(x) <==> item_in_groups(view, x, true) by {
            if item_in_groups(view, x, true) {
                let (h, n) = choose|h: int, n: int|
                    0 <= h < view.len() && 0 <= n < view[h].len() && (#[trigger] view[h][n]).6 == x && (view[h][0].5 == 1) == true;
                assert(view[h][n].6 == x);
            }
        }
        assert forall|x: usize| clear@.contains(x) <==> item_in_groups(view, x, false) by {
            if item_in_groups(view, x, false) {
                let (h, n) = choose|h: int, n: int|
                    0 <= h < view.len() && 0 <= n < view[h].len() && (#[trigger] view[h][n]).6 == x && (view[h][0].5 == 1) == false;
                assert(view[h][n].6 == x);
            }
        }
    }
    (set, clear)
}

/// `s` holds the keys of `keys`, rearranged into ascending order.
pub open spec fn arrangement_of(s: Seq<Key>, keys: Seq<Key>) -> bool {
    ascending(s) && s.to_multiset() == keys.to_multiset()
}

/// The keys in ascending order.
pub fn arrange(keys: Vec<Key>) -> (r: Vec<Key>)
    ensures
        arrangement_of(r@, keys@),
{
    let mut s = keys;
    sort_keys(&mut s);
    s
}

/// An arrangement of keys with distinct item numbers holds the same keys,
/// again with distinct item numbers.
pub proof fn lemma_arrangement_distinct(s: Seq<Key>, keys: Seq<Key>)
    requires
        arrangement_of(s, keys),
        distinct_items(keys),
    ensures
        distinct_items(s),
        forall|x: Key| s.contains(x) <==> keys.contains(x),
        s.len() == keys.len(),
{
    assert(keys.no_duplicates()) by {
        assert forall|i: int, j: int| 0 <= i < keys.len() && 0 <= j < keys.len() && i != j implies keys[i] != keys[j] by {
            assert(keys[i].6 != keys[j].6);
        }
    }
    keys.lemma_multiset_has_no_duplicates();
    s.lemma_multiset_has_no_duplicates_conv();
    assert forall|x: Key| s.contains(x) <==> keys.contains(x) by {
        assert(s.contains(x) <==> s.to_multiset().count(x) > 0);
        assert(keys.contains(x) <==> keys.to_multiset().count(x) > 0);
    }
    assert(s.len() == s.to_multiset().len());
    assert(keys.len() == keys.to_multiset().len());
    assert forall|i: int, j: int| 0 <= i < s.len() && 0 <= j < s.len() && i != j implies (#[trigger] s[i]).6
        != (#[trigger] s[j]).6 by {
        assert(s[i] != s[j]);
        assert(keys.contains(s[i]));
        assert(keys.contains(s[j]));
        let a = choose|a: int| 0 <= a < keys.len() && keys[a] == s[i];
        let b = choose|b: int| 0 <= b < keys.len() && keys[b] == s[j];
        assert(a != b);
    }
}

} // verus!
