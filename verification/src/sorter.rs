//! The import sorter: owns the buckets for one file-processing session,
//! classifies every inserted import, and sorts each bucket by import path.
//!
//! Classification: a path holding both a `.` and a `/` looks like a domain
//! package path; among the caller-declared custom prefixes that are a prefix
//! of it, the longest wins.  With no matching prefix such a path is
//! third-party.  Every other path is a standard-library (core) import.
//! A prefix declared twice collapses to one bucket at construction, so the
//! declared buckets carry distinct prefixes.

use vstd::prelude::*;
use vstd::string::StrSliceExecFns;
use crate::import::{Import, ImportModel, views_of};
use crate::text::{lex_lt, lemma_lex_trans, str_lt, str_prefix, str_contains_char,
    str_starts_with};

verus! {

/// The mathematical value of an [`ImportSorter`]: the core and third-party
/// buckets, and one bucket per custom prefix, in declaration order.
pub ghost struct SorterModel {
    pub core: Seq<ImportModel>,
    pub third_party: Seq<ImportModel>,
    pub custom: Seq<(Seq<char>, Seq<ImportModel>)>,
}

/// The custom prefixes, in declaration order.
pub open spec fn keys_of(m: SorterModel) -> Seq<Seq<char>> {
    m.custom.map_values(|p: (Seq<char>, Seq<ImportModel>)| p.0)
}

/// The prefixes with later duplicates dropped: each distinct prefix once,
/// at the place of its first declaration.
pub open spec fn dedup_keys(keys: Seq<Seq<char>>) -> Seq<Seq<char>>
    decreases keys.len(),
{
    if keys.len() == 0 {
        Seq::empty()
    } else {
        let front = dedup_keys(keys.drop_last());
        if front.contains(keys.last()) {
            front
        } else {
            front.push(keys.last())
        }
    }
}

/// A sorter with the given custom prefixes and nothing inserted yet.
pub open spec fn fresh_sorter(keys: Seq<Seq<char>>) -> SorterModel {
    SorterModel {
        core: Seq::empty(),
        third_party: Seq::empty(),
        custom: keys.map_values(|k: Seq<char>| (k, Seq::<ImportModel>::empty())),
    }
}

/// A domain-like path: holds both a dot and a slash.
pub open spec fn has_dot_slash(url: Seq<char>) -> bool {
    url.contains('.') && url.contains('/')
}

/// The index of the custom prefix that wins `url`: among the prefixes of
/// `url` the longest.  Two distinct prefixes of one path never share a
/// length, so with the distinct keys the constructor builds, at most one
/// prefix of maximal length matches; on equally long (duplicate) keys the
/// last would win.
pub open spec fn best_custom(keys: Seq<Seq<char>>, url: Seq<char>) -> Option<int>
    decreases keys.len(),
{
    if keys.len() == 0 {
        None
    } else {
        let rest = best_custom(keys.drop_last(), url);
        let last = keys.len() - 1;
        if str_prefix(keys[last], url) {
            match rest {
                Some(j) => if keys[last].len() >= keys[j].len() {
                    Some(last)
                } else {
                    Some(j)
                },
                None => Some(last),
            }
        } else {
            rest
        }
    }
}

/// What [`best_custom`] returns is a matching prefix of maximal length,
/// and it returns one whenever a match exists.
pub proof fn lemma_best_custom(keys: Seq<Seq<char>>, url: Seq<char>)
    ensures
        match best_custom(keys, url) {
            Some(j) => 0 <= j < keys.len() && str_prefix(keys[j], url) && forall|i: int|
                0 <= i < keys.len() && str_prefix(keys[i], url) ==> keys[i].len()
                    <= keys[j].len(),
            None => forall|i: int| 0 <= i < keys.len() ==> !str_prefix(keys[i], url),
        },
    decreases keys.len(),
{
    if keys.len() > 0 {
        let rest = keys.drop_last();
        let last = keys.len() - 1;
        lemma_best_custom(rest, url);
        assert(forall|i: int| 0 <= i < last ==> keys[i] == #[trigger] rest[i]);
        if str_prefix(keys[last], url) {
            match best_custom(rest, url) {
                Some(j) => {
                    if keys[last].len() >= keys[j].len() {
                        assert forall|i: int|
                            0 <= i < keys.len() && str_prefix(keys[i], url) implies keys[i].len()
                            <= keys[last].len() by {
                            if i < last {
                                assert(rest[i].len() <= rest[j].len());
                            }
                        }
                    } else {
                        assert forall|i: int|
                            0 <= i < keys.len() && str_prefix(keys[i], url) implies keys[i].len()
                            <= keys[j].len() by {
                            if i < last {
                                assert(rest[i].len() <= rest[j].len());
                            }
                        }
                    }
                },
                None => {
                    assert forall|i: int|
                        0 <= i < keys.len() && str_prefix(keys[i], url) implies keys[i].len()
                        <= keys[last].len() by {
                        if i < last {
                            assert(!str_prefix(rest[i], url));
                        }
                    }
                },
            }
        } else {
            match best_custom(rest, url) {
                Some(j) => {
                    assert forall|i: int|
                        0 <= i < keys.len() && str_prefix(keys[i], url) implies keys[i].len()
                        <= keys[j].len() by {
                        if i < last {
                            assert(rest[i].len() <= rest[j].len());
                        }
                    }
                },
                None => {
                    assert forall|i: int| 0 <= i < keys.len() implies !str_prefix(
                        keys[i],
                        url,
                    ) by {
                        if i < last {
                            assert(!str_prefix(rest[i], url));
                        }
                    }
                },
            }
        }
    }
}

/// The bucket an import path belongs to: `0` is core, `1` is third-party,
/// `2 + k` is the custom bucket at index `k`.
pub open spec fn classify(keys: Seq<Seq<char>>, url: Seq<char>) -> int {
    if !has_dot_slash(url) {
        0
    } else {
        match best_custom(keys, url) {
            Some(j) => 2 + j,
            None => 1,
        }
    }
}

/// The sorter after one insertion.
pub open spec fn insert_model(m: SorterModel, i: ImportModel) -> SorterModel {
    let b = classify(keys_of(m), i.url);
    if b == 0 {
        SorterModel { core: m.core.push(i), ..m }
    } else if b == 1 {
        SorterModel { third_party: m.third_party.push(i), ..m }
    } else {
        SorterModel {
            custom: m.custom.update(b - 2, (m.custom[b - 2].0, m.custom[b - 2].1.push(i))),
            ..m
        }
    }
}

/// A bucket is sorted when its import paths are non-decreasing.
pub open spec fn sorted_by_url(v: Seq<ImportModel>) -> bool {
    forall|i: int, j: int| 0 <= i < j < v.len() ==> !lex_lt(v[j].url, v[i].url)
}

/// `x` placed before the first entry whose path is strictly greater.
pub open spec fn insert_sorted(x: ImportModel, s: Seq<ImportModel>) -> Seq<ImportModel>
    decreases s.len(),
{
    if s.len() == 0 {
        seq![x]
    } else if lex_lt(x.url, s[0].url) {
        seq![x] + s
    } else {
        seq![s[0]] + insert_sorted(x, s.drop_first())
    }
}

/// Insertion sort of a bucket: stable, and ascending by import path.
pub open spec fn sort_by_url(s: Seq<ImportModel>) -> Seq<ImportModel>
    decreases s.len(),
{
    if s.len() == 0 {
        Seq::empty()
    } else {
        insert_sorted(s.last(), sort_by_url(s.drop_last()))
    }
}

/// The sorter with every bucket sorted.
pub open spec fn sort_model(m: SorterModel) -> SorterModel {
    SorterModel {
        core: sort_by_url(m.core),
        third_party: sort_by_url(m.third_party),
        custom: m.custom.map_values(
            |p: (Seq<char>, Seq<ImportModel>)| (p.0, sort_by_url(p.1)),
        ),
    }
}

/// The number of imports held by the custom buckets.
pub open spec fn custom_count(cs: Seq<(Seq<char>, Seq<ImportModel>)>) -> int
    decreases cs.len(),
{
    if cs.len() == 0 {
        0
    } else {
        custom_count(cs.drop_last()) + cs.last().1.len()
    }
}

/// The number of imports held by the whole sorter.
pub open spec fn total_count(m: SorterModel) -> int {
    m.core.len() + m.third_party.len() + custom_count(m.custom)
}

/// All buckets, in the fixed output order: core, third-party, then the
/// custom buckets in declaration order.
pub open spec fn buckets_of(m: SorterModel) -> Seq<Seq<ImportModel>> {
    seq![m.core, m.third_party] + m.custom.map_values(
        |p: (Seq<char>, Seq<ImportModel>)| p.1,
    )
}

/// The head of the first bucket holding exactly one import, scanning from
/// bucket `k` on.
pub open spec fn first_single_from(bs: Seq<Seq<ImportModel>>, k: int) -> Option<ImportModel>
    decreases bs.len() - k,
{
    if k < 0 || k >= bs.len() {
        None
    } else if bs[k].len() == 1 {
        Some(bs[k][0])
    } else {
        first_single_from(bs, k + 1)
    }
}

/// Inserting into a sorted bucket keeps it sorted; the result is one entry
/// longer, and every entry is the new import or one already there.
pub proof fn lemma_insert_sorted_sorted(x: ImportModel, s: Seq<ImportModel>)
    requires
        sorted_by_url(s),
    ensures
        sorted_by_url(insert_sorted(x, s)),
        insert_sorted(x, s).len() == s.len() + 1,
        forall|j: int| 0 <= j < insert_sorted(x, s).len() ==> insert_sorted(x, s)[j] == x
            || s.contains(#[trigger] insert_sorted(x, s)[j]),
    decreases s.len(),
{
    let r = insert_sorted(x, s);
    if s.len() == 0 {
        assert(r[0] == x);
    } else if lex_lt(x.url, s[0].url) {
        assert(r == seq![x] + s);
        assert forall|i: int, j: int| 0 <= i < j < r.len() implies !lex_lt(
            r[j].url,
            r[i].url,
        ) by {
            if i == 0 {
                assert(r[j] == s[j - 1]);
                if lex_lt(s[j - 1].url, x.url) {
                    lemma_lex_trans(s[j - 1].url, x.url, s[0].url);
                    if j - 1 == 0 {
                        crate::text::lemma_lex_irrefl(s[0].url);
                    }
                }
            } else {
                assert(r[i] == s[i - 1] && r[j] == s[j - 1]);
            }
        }
        assert forall|j: int| 0 <= j < r.len() implies r[j] == x || s.contains(
            #[trigger] r[j],
        ) by {
            if j >= 1 {
                assert(r[j] == s[j - 1]);
            }
        }
    } else {
        let s1 = s.drop_first();
        assert(forall|k: int| 0 <= k < s1.len() ==> s1[k] == #[trigger] s[k + 1]);
        assert(sorted_by_url(s1));
        lemma_insert_sorted_sorted(x, s1);
        let r1 = insert_sorted(x, s1);
        assert(r == seq![s[0]] + r1);
        assert forall|i: int, j: int| 0 <= i < j < r.len() implies !lex_lt(
            r[j].url,
            r[i].url,
        ) by {
            if i == 0 {
                assert(r[j] == r1[j - 1]);
                if r1[j - 1] == x {
                } else {
                    let k = choose|k: int| 0 <= k < s1.len() && s1[k] == r1[j - 1];
                    assert(s1[k] == s[k + 1]);
                }
            } else {
                assert(r[i] == r1[i - 1] && r[j] == r1[j - 1]);
            }
        }
        assert forall|j: int| 0 <= j < r.len() implies r[j] == x || s.contains(
            #[trigger] r[j],
        ) by {
            if j == 0 {
                assert(s.contains(s[0]));
            } else {
                assert(r[j] == r1[j - 1]);
                if r1[j - 1] != x {
                    let k = choose|k: int| 0 <= k < s1.len() && s1[k] == r1[j - 1];
                    assert(s[k + 1] == r1[j - 1]);
                    assert(s.contains(s[k + 1]));
                }
            }
        }
    }
}

/// Whatever the insertion produces was the new import or was already
/// there, whether or not the bucket was sorted.
pub proof fn lemma_insert_sorted_contents(x: ImportModel, s: Seq<ImportModel>)
    ensures
        insert_sorted(x, s).len() == s.len() + 1,
        forall|j: int| 0 <= j < insert_sorted(x, s).len() ==> insert_sorted(x, s)[j] == x
            || s.contains(#[trigger] insert_sorted(x, s)[j]),
    decreases s.len(),
{
    let r = insert_sorted(x, s);
    if s.len() == 0 {
        assert(r[0] == x);
    } else if lex_lt(x.url, s[0].url) {
        assert(r == seq![x] + s);
        assert forall|j: int| 0 <= j < r.len() implies r[j] == x || s.contains(
            #[trigger] r[j],
        ) by {
            if j >= 1 {
                assert(r[j] == s[j - 1]);
            }
        }
    } else {
        let s1 = s.drop_first();
        assert(forall|k: int| 0 <= k < s1.len() ==> s1[k] == #[trigger] s[k + 1]);
        lemma_insert_sorted_contents(x, s1);
        let r1 = insert_sorted(x, s1);
        assert(r == seq![s[0]] + r1);
        assert forall|j: int| 0 <= j < r.len() implies r[j] == x || s.contains(
            #[trigger] r[j],
        ) by {
            if j == 0 {
                assert(s.contains(s[0]));
            } else {
                assert(r[j] == r1[j - 1]);
                if r1[j - 1] != x {
                    let k = choose|k: int| 0 <= k < s1.len() && s1[k] == r1[j - 1];
                    assert(s[k + 1] == r1[j - 1]);
                    assert(s.contains(s[k + 1]));
                }
            }
        }
    }
}

/// Sorting only rearranges: every entry of the sorted bucket stood in the
/// bucket before.
pub proof fn lemma_sort_contents(s: Seq<ImportModel>)
    ensures
        sort_by_url(s).len() == s.len(),
        forall|j: int| 0 <= j < sort_by_url(s).len() ==> s.contains(
            #[trigger] sort_by_url(s)[j],
        ),
    decreases s.len(),
{
    if s.len() > 0 {
        let s0 = s.drop_last();
        lemma_sort_contents(s0);
        lemma_insert_sorted_contents(s.last(), sort_by_url(s0));
        let r = sort_by_url(s);
        assert forall|j: int| 0 <= j < r.len() implies s.contains(#[trigger] r[j]) by {
            if r[j] == s.last() {
                assert(s.contains(s[s.len() - 1]));
            } else {
                assert(sort_by_url(s0).contains(r[j]));
                let k = choose|k: int|
                    0 <= k < sort_by_url(s0).len() && sort_by_url(s0)[k] == r[j];
                assert(s0.contains(sort_by_url(s0)[k]));
                let k2 = choose|k2: int| 0 <= k2 < s0.len() && s0[k2] == r[j];
                assert(s[k2] == r[j]);
                assert(s.contains(s[k2]));
            }
        }
    }
}

/// Sorting sorts: the result of [`sort_by_url`] is sorted and holds as many
/// entries as its input.
pub proof fn lemma_sort_sorted(s: Seq<ImportModel>)
    ensures
        sorted_by_url(sort_by_url(s)),
        sort_by_url(s).len() == s.len(),
    decreases s.len(),
{
    if s.len() > 0 {
        lemma_sort_sorted(s.drop_last());
        lemma_insert_sorted_sorted(s.last(), sort_by_url(s.drop_last()));
    }
}

/// An import no smaller than every entry of a bucket lands at its end.
pub proof fn lemma_insert_sorted_end(x: ImportModel, s: Seq<ImportModel>)
    requires
        forall|k: int| 0 <= k < s.len() ==> !lex_lt(x.url, #[trigger] s[k].url),
    ensures
        insert_sorted(x, s) == s.push(x),
    decreases s.len(),
{
    if s.len() == 0 {
        assert(insert_sorted(x, s) =~= s.push(x));
    } else {
        let s1 = s.drop_first();
        assert(forall|k: int| 0 <= k < s1.len() ==> s1[k] == #[trigger] s[k + 1]);
        lemma_insert_sorted_end(x, s1);
        assert(insert_sorted(x, s) =~= s.push(x));
    }
}

/// Sorting is the identity on a sorted bucket; sorting twice is sorting once.
pub proof fn lemma_sorted_sort_id(s: Seq<ImportModel>)
    requires
        sorted_by_url(s),
    ensures
        sort_by_url(s) == s,
    decreases s.len(),
{
    if s.len() > 0 {
        let s0 = s.drop_last();
        assert(forall|k: int| 0 <= k < s0.len() ==> s0[k] == #[trigger] s[k]);
        assert(sorted_by_url(s0));
        lemma_sorted_sort_id(s0);
        assert(forall|k: int| 0 <= k < s0.len() ==> !lex_lt(s.last().url, #[trigger] s0[k].url));
        lemma_insert_sorted_end(s.last(), s0);
        assert(s0.push(s.last()) =~= s);
    }
}

/// Where the exec scan stops is exactly where [`insert_sorted`] puts the
/// new import.
pub proof fn lemma_insert_sorted_at(x: ImportModel, s: Seq<ImportModel>, p: int)
    requires
        0 <= p <= s.len(),
        forall|k: int| 0 <= k < p ==> !lex_lt(x.url, #[trigger] s[k].url),
        p == s.len() || lex_lt(x.url, s[p].url),
    ensures
        insert_sorted(x, s) == s.take(p) + seq![x] + s.skip(p),
    decreases p,
{
    if p == 0 {
        if s.len() == 0 {
            assert(insert_sorted(x, s) =~= s.take(0) + seq![x] + s.skip(0));
        } else {
            assert(insert_sorted(x, s) == seq![x] + s);
            assert(seq![x] + s =~= s.take(0) + seq![x] + s.skip(0));
        }
    } else {
        let s1 = s.drop_first();
        assert(forall|k: int| 0 <= k < s1.len() ==> s1[k] == #[trigger] s[k + 1]);
        lemma_insert_sorted_at(x, s1, p - 1);
        assert(insert_sorted(x, s) == seq![s[0]] + insert_sorted(x, s1));
        assert(seq![s[0]] + (s1.take(p - 1) + seq![x] + s1.skip(p - 1)) =~= s.take(p) + seq![x]
            + s.skip(p));
    }
}

/// The imports held by the buckets from index `k` on.
pub open spec fn buckets_count_from(bs: Seq<Seq<ImportModel>>, k: int) -> int
    decreases bs.len() - k,
{
    if k < 0 || k >= bs.len() {
        0
    } else {
        bs[k].len() + buckets_count_from(bs, k + 1)
    }
}

pub proof fn lemma_buckets_count_nonneg(bs: Seq<Seq<ImportModel>>, k: int)
    ensures
        buckets_count_from(bs, k) >= 0,
    decreases bs.len() - k,
{
    if 0 <= k < bs.len() {
        lemma_buckets_count_nonneg(bs, k + 1);
    }
}

/// Counting bucket by bucket counts the whole sorter.
pub proof fn lemma_buckets_count(m: SorterModel)
    ensures
        buckets_count_from(buckets_of(m), 0) == total_count(m),
{
    let bs = buckets_of(m);
    assert(bs.len() == 2 + m.custom.len());
    assert(bs[0] == m.core);
    assert(bs[1] == m.third_party);
    lemma_buckets_count_customs(m, 0);
    assert(m.custom.take(0) =~= Seq::<(Seq<char>, Seq<ImportModel>)>::empty());
    assert(custom_count(m.custom.take(0)) == 0);
    assert(buckets_count_from(bs, 0) == bs[0].len() + buckets_count_from(bs, 1));
    assert(buckets_count_from(bs, 1) == bs[1].len() + buckets_count_from(bs, 2));
}

proof fn lemma_buckets_count_customs(m: SorterModel, k: int)
    requires
        0 <= k <= m.custom.len(),
    ensures
        buckets_count_from(buckets_of(m), 2 + k) == custom_count(m.custom) - custom_count(
            m.custom.take(k),
        ),
    decreases m.custom.len() - k,
{
    let bs = buckets_of(m);
    if k == m.custom.len() {
        assert(m.custom.take(k) =~= m.custom);
    } else {
        lemma_buckets_count_customs(m, k + 1);
        assert(bs[2 + k] == m.custom[k].1);
        assert(m.custom.take(k + 1).drop_last() =~= m.custom.take(k));
        assert(m.custom.take(k + 1).last() == m.custom[k]);
    }
}

/// A sorter holding exactly one import has a bucket holding exactly one.
pub proof fn lemma_first_single_exists(bs: Seq<Seq<ImportModel>>, k: int)
    requires
        0 <= k <= bs.len(),
        buckets_count_from(bs, k) == 1,
    ensures
        first_single_from(bs, k) matches Some(i) && exists|j: int|
            k <= j < bs.len() && bs[j] == seq![i],
    decreases bs.len() - k,
{
    if k < bs.len() {
        lemma_buckets_count_nonneg(bs, k + 1);
        if bs[k].len() == 1 {
            assert(bs[k] =~= seq![bs[k][0]]);
        } else {
            lemma_first_single_exists(bs, k + 1);
        }
    }
}

pub proof fn lemma_custom_count_nonneg(cs: Seq<(Seq<char>, Seq<ImportModel>)>)
    ensures
        custom_count(cs) >= 0,
    decreases cs.len(),
{
    if cs.len() > 0 {
        lemma_custom_count_nonneg(cs.drop_last());
    }
}

/// A prefix of the custom buckets holds no more than all of them.
pub proof fn lemma_custom_count_prefix(cs: Seq<(Seq<char>, Seq<ImportModel>)>, k: int)
    requires
        0 <= k <= cs.len(),
    ensures
        custom_count(cs.take(k)) <= custom_count(cs),
    decreases cs.len() - k,
{
    if k < cs.len() {
        lemma_custom_count_prefix(cs, k + 1);
        assert(cs.take(k + 1).drop_last() =~= cs.take(k));
        assert(cs.take(k + 1).last() == cs[k]);
        let ghost e = cs[k];
        assert(custom_count(cs.take(k + 1)) == custom_count(cs.take(k)) + e.1.len());
        assert(e.1.len() >= 0);
    } else {
        assert(cs.take(k) =~= cs);
    }
}

/// Owns all buckets for one file-processing session.
pub struct ImportSorter {
    core: Vec<Import>,
    third_party: Vec<Import>,
    custom: Vec<(String, Vec<Import>)>,
}

impl View for ImportSorter {
    type V = SorterModel;

    closed spec fn view(&self) -> SorterModel {
        SorterModel {
            core: views_of(self.core@),
            third_party: views_of(self.third_party@),
            custom: self.custom@.map_values(
                |p: (String, Vec<Import>)| (p.0@, views_of(p.1@)),
            ),
        }
    }
}

impl ImportSorter {
    /// The sorter can count its imports in a `usize`.
    pub open spec fn wf(&self) -> bool {
        total_count(self@) <= usize::MAX
    }

    /// A sorter with empty buckets: core, third-party, and one custom bucket
    /// per distinct declared prefix, in declaration order.  A prefix
    /// declared twice collapses to the bucket of its first declaration.
    pub fn new(packages: Vec<String>) -> (r: ImportSorter)
        ensures
            r@ == fresh_sorter(dedup_keys(packages@.map_values(|p: String| p@))),
            total_count(r@) == 0,
            r.wf(),
    {
        let ghost views = packages@.map_values(|p: String| p@);
        let mut custom: Vec<(String, Vec<Import>)> = Vec::new();
        let mut p = packages;
        let ghost mut i: int = 0;
        proof {
            assert(views.take(0) =~= Seq::<Seq<char>>::empty());
        }
        while p.len() > 0
            invariant
                0 <= i <= views.len(),
                views == packages@.map_values(|p2: String| p2@),
                views.len() == packages@.len(),
                p@.len() == views.len() - i,
                forall|j: int| 0 <= j < p@.len() ==> #[trigger] p@[j] == packages@[i + j],
                custom@.len() == dedup_keys(views.take(i)).len(),
                forall|j: int| 0 <= j < custom@.len() ==> (#[trigger] custom@[j]).0@
                    == dedup_keys(views.take(i))[j] && custom@[j].1@ == Seq::<Import>::empty(),
            decreases p@.len(),
        {
            let ghost p0 = p@;
            let name = p.remove(0);
            proof {
                assert(name == packages@[i + 0]);
                assert(name@ == views[i]);
                p0.remove_ensures(0);
                assert(forall|j: int| 0 <= j < p@.len() ==> #[trigger] p@[j] == p0[j + 1]);
            }
            let ghost dk = dedup_keys(views.take(i));
            let n = custom.len();
            let mut dup = false;
            let mut j: usize = 0;
            while j < n
                invariant
                    j <= n,
                    n == custom@.len(),
                    dup ==> exists|k: int| 0 <= k < n && (#[trigger] custom@[k]).0@ == name@,
                    !dup ==> forall|k: int| 0 <= k < j ==> (#[trigger] custom@[k]).0@ != name@,
                decreases n - j,
            {
                if crate::text::str_eq(custom[j].0.as_str(), name.as_str()) {
                    dup = true;
                }
                j = j + 1;
            }
            proof {
                assert(views.take(i + 1).drop_last() =~= views.take(i));
                assert(views.take(i + 1).last() == views[i]);
                if dup {
                    let k = choose|k: int|
                        0 <= k < custom@.len() && (#[trigger] custom@[k]).0@ == name@;
                    assert(dk[k] == name@);
                    assert(dk.contains(name@));
                    assert(dedup_keys(views.take(i + 1)) == dk);
                } else {
                    assert forall|k: int| !(0 <= k < dk.len() && dk[k] == name@) by {
                        if 0 <= k < dk.len() {
                            assert(custom@[k].0@ == dk[k]);
                        }
                    }
                    assert(!dk.contains(name@));
                    assert(dedup_keys(views.take(i + 1)) == dk.push(name@));
                }
            }
            if !dup {
                custom.push((name, Vec::new()));
            }
            proof {
                i = i + 1;
            }
        }
        let r = ImportSorter { core: Vec::new(), third_party: Vec::new(), custom };
        proof {
            assert(views.take(i) =~= views);
            let dk = dedup_keys(views);
            assert forall|j: int| 0 <= j < dk.len() implies r@.custom[j] == (
                dk[j],
                Seq::<ImportModel>::empty(),
            ) by {
                assert(r@.custom[j].0 == custom@[j].0@);
                assert(views_of(custom@[j].1@) =~= Seq::<ImportModel>::empty());
            }
            lemma_count_all_empty(r@.custom);
            let fs = fresh_sorter(dk);
            assert(forall|j: int| 0 <= j < dk.len() ==> #[trigger] fs.custom[j] == (
                dk[j],
                Seq::<ImportModel>::empty(),
            ));
            assert(r@.custom =~= fs.custom);
            assert(r@.core =~= fs.core);
            assert(r@.third_party =~= fs.third_party);
            assert(r@ =~= fs);
        }
        r
    }

    /// Classifies the import and appends it to its bucket.
    pub fn insert(&mut self, i: Import)
        ensures
            final(self)@ == insert_model(old(self)@, i@),
            total_count(final(self)@) == total_count(old(self)@) + 1,
    {
        let ghost m0 = self@;
        let ghost keys = keys_of(m0);
        proof {
            assert(forall|j: int| 0 <= j < keys.len() ==> keys[j] == self.custom@.map_values(
                |p: (String, Vec<Import>)| (p.0@, views_of(p.1@)),
            )[j].0);
        }
        let dotted = str_contains_char(i.url.as_str(), '.') && str_contains_char(
            i.url.as_str(),
            '/',
        );
        if !dotted {
            assert(classify(keys, i@.url) == 0);
            let ghost old_core = self.core@;
            self.core.push(i);
            proof {
                assert(views_of(self.core@) =~= views_of(old_core).push(i@));
                assert(self@ =~= insert_model(m0, i@));
                lemma_count_core_push(m0, i@);
            }
            return ;
        }
        let n = self.custom.len();
        let mut best: usize = 0;
        let mut found = false;
        let mut best_len: usize = 0;
        let mut j: usize = 0;
        proof {
            assert(best_custom(keys.take(0), i@.url) is None);
        }
        while j < n
            invariant
                j <= n,
                n == self.custom@.len(),
                keys == keys_of(self@),
                keys.len() == n,
                found ==> best < j && best_custom(keys.take(j as int), i@.url) == Some(
                    best as int,
                ) && best_len == keys[best as int].len(),
                !found ==> best_custom(keys.take(j as int), i@.url) is None,
            decreases n - j,
        {
            proof {
                assert(keys[j as int] == self.custom@.map_values(
                    |p: (String, Vec<Import>)| (p.0@, views_of(p.1@)),
                )[j as int].0);
                assert(keys.take(j + 1).drop_last() =~= keys.take(j as int));
                assert(keys.take(j + 1).last() == keys[j as int]);
            }
            let key = &self.custom[j].0;
            let klen = key.as_str().unicode_len();
            if str_starts_with(i.url.as_str(), key.as_str()) {
                if !found || klen >= best_len {
                    best = j;
                    best_len = klen;
                    found = true;
                }
            }
            j = j + 1;
        }
        proof {
            assert(keys.take(n as int) =~= keys);
        }
        if found {
            self.custom[best].1.push(i);
            proof {
                let b = best as int;
                assert(classify(keys, i@.url) == 2 + b);
                assert(views_of(self.custom@[b].1@) =~= m0.custom[b].1.push(i@));
                assert(self@.custom =~= m0.custom.update(
                    b,
                    (m0.custom[b].0, m0.custom[b].1.push(i@)),
                ));
                assert(self@ =~= insert_model(m0, i@));
                lemma_count_custom_push(m0, i@, b);
            }
        } else {
            let ghost old_third = self.third_party@;
            self.third_party.push(i);
            proof {
                assert(classify(keys, i@.url) == 1);
                assert(views_of(self.third_party@) =~= views_of(old_third).push(i@));
                assert(self@ =~= insert_model(m0, i@));
                lemma_count_third_push(m0, i@);
            }
        }
    }

    /// Sorts every bucket in place, ascending by import path.
    pub fn sort(&mut self)
        ensures
            final(self)@ == sort_model(old(self)@),
            total_count(final(self)@) == total_count(old(self)@),
    {
        let ghost m0 = self@;
        sort_imports(&mut self.core);
        sort_imports(&mut self.third_party);
        let mut j: usize = 0;
        let n = self.custom.len();
        while j < n
            invariant
                j <= n,
                n == self.custom@.len(),
                views_of(self.core@) == sort_by_url(m0.core),
                views_of(self.third_party@) == sort_by_url(m0.third_party),
                self.custom@.len() == m0.custom.len(),
                forall|k: int| 0 <= k < j ==> (#[trigger] self.custom@[k]).0@ == m0.custom[k].0
                    && views_of(self.custom@[k].1@) == sort_by_url(m0.custom[k].1),
                forall|k: int| j <= k < n ==> ((#[trigger] self.custom@[k]).0@, views_of(
                    self.custom@[k].1@,
                )) == m0.custom[k],
            decreases n - j,
        {
            proof {
                assert((self.custom@[j as int].0@, views_of(self.custom@[j as int].1@))
                    == m0.custom[j as int]);
            }
            let ghost c0 = self.custom@;
            let mut entry = self.custom.remove(j);
            sort_imports(&mut entry.1);
            let ghost e = entry;
            self.custom.insert(j, entry);
            proof {
                c0.remove_ensures(j as int);
                assert(self.custom@ =~= c0.update(j as int, e));
                assert(forall|k: int| 0 <= k < n && k != j ==> self.custom@[k] == #[trigger] c0[
                    k
                ]);
                assert forall|k: int| 0 <= k < j + 1 implies (#[trigger] self.custom@[k]).0@
                    == m0.custom[k].0 && views_of(self.custom@[k].1@) == sort_by_url(
                    m0.custom[k].1,
                ) by {
                    if k < j {
                        assert(self.custom@[k] == c0[k]);
                        assert(views_of(c0[k].1@) == sort_by_url(m0.custom[k].1));
                    } else {
                        assert(self.custom@[j as int] == e);
                        assert(e.0@ == m0.custom[j as int].0);
                        assert(views_of(e.1@) == sort_by_url(m0.custom[j as int].1));
                    }
                }
            }
            j = j + 1;
        }
        proof {
            assert(self@.custom =~= sort_model(m0).custom);
            assert(self@ =~= sort_model(m0));
            lemma_count_sort(m0);
        }
    }

    /// The total number of imports across all buckets.
    pub fn imports_count(&self) -> (r: usize)
        requires
            self.wf(),
        ensures
            r == total_count(self@),
    {
        proof {
            lemma_custom_count_nonneg(self@.custom);
            assert(self@.custom.take(0) =~= Seq::<(Seq<char>, Seq<ImportModel>)>::empty());
        }
        let mut r: usize = self.core.len() + self.third_party.len();
        let n = self.custom.len();
        let mut j: usize = 0;
        while j < n
            invariant
                j <= n,
                n == self@.custom.len(),
                self.wf(),
                r == self@.core.len() + self@.third_party.len() + custom_count(
                    self@.custom.take(j as int),
                ),
            decreases n - j,
        {
            proof {
                assert(self@.custom.take(j + 1).drop_last() =~= self@.custom.take(j as int));
                assert(self@.custom.take(j + 1).last() == self@.custom[j as int]);
                lemma_custom_count_prefix(self@.custom, j + 1);
                assert(self@.custom[j as int].1.len() == views_of(self.custom@[j as int].1@).len());
            }
            r = r + self.custom[j].1.len();
            j = j + 1;
        }
        proof {
            assert(self@.custom.take(n as int) =~= self@.custom);
        }
        r
    }

    /// The lone import of the first bucket holding exactly one, in the fixed
    /// bucket order; `None` when no bucket holds exactly one.
    pub fn get_single_count(&self) -> (r: Option<&Import>)
        ensures
            match r {
                Some(i) => first_single_from(buckets_of(self@), 0) == Some(i@),
                None => first_single_from(buckets_of(self@), 0) is None,
            },
    {
        let ghost bs = buckets_of(self@);
        proof {
            assert(bs[0] == self@.core);
            assert(bs[1] == self@.third_party);
            assert(bs[0].len() == self.core@.len());
            assert(bs[1].len() == self.third_party@.len());
        }
        if self.core.len() == 1 {
            proof {
                assert(bs[0][0] == self.core@[0]@);
            }
            return Some(&self.core[0]);
        }
        if self.third_party.len() == 1 {
            proof {
                assert(first_single_from(bs, 0) == first_single_from(bs, 1));
                assert(bs[1][0] == self.third_party@[0]@);
            }
            return Some(&self.third_party[0]);
        }
        proof {
            assert(first_single_from(bs, 0) == first_single_from(bs, 1));
            assert(first_single_from(bs, 1) == first_single_from(bs, 2));
        }
        let n = self.custom.len();
        let mut j: usize = 0;
        while j < n
            invariant
                j <= n,
                n == self@.custom.len(),
                bs == buckets_of(self@),
                bs.len() == 2 + n,
                first_single_from(bs, 0) == first_single_from(bs, 2 + j),
            decreases n - j,
        {
            proof {
                assert(bs[2 + j] == self@.custom[j as int].1);
                assert(self@.custom[j as int].1 == views_of(self.custom@[j as int].1@));
            }
            if self.custom[j].1.len() == 1 {
                proof {
                    assert(first_single_from(bs, 2 + j) == Some(bs[2 + j as int][0]));
                }
                return Some(&self.custom[j].1[0]);
            }
            j = j + 1;
        }
        proof {
            assert(first_single_from(bs, 2 + n) is None);
        }
        None
    }

    /// The buckets in the fixed output order, including empty ones.
    pub fn iter(&self) -> (r: Vec<&Vec<Import>>)
        ensures
            r@.len() == 2 + self@.custom.len(),
            views_of(r@[0]@) == self@.core,
            views_of(r@[1]@) == self@.third_party,
            forall|j: int| 0 <= j < self@.custom.len() ==> views_of(#[trigger] r@[2 + j]@)
                == self@.custom[j].1,
    {
        let mut r: Vec<&Vec<Import>> = Vec::new();
        r.push(&self.core);
        r.push(&self.third_party);
        let n = self.custom.len();
        let mut j: usize = 0;
        while j < n
            invariant
                j <= n,
                n == self@.custom.len(),
                r@.len() == 2 + j,
                views_of(r@[0]@) == self@.core,
                views_of(r@[1]@) == self@.third_party,
                forall|k: int| 0 <= k < j ==> views_of(#[trigger] r@[2 + k]@) == self@.custom[k].1,
            decreases n - j,
        {
            r.push(&self.custom[j].1);
            proof {
                assert(views_of(r@[2 + j as int]@) == self@.custom[j as int].1);
            }
            j = j + 1;
        }
        r
    }

    /// The core bucket.
    pub fn core_bucket(&self) -> (r: &Vec<Import>)
        ensures
            views_of(r@) == self@.core,
    {
        &self.core
    }

    /// The third-party bucket.
    pub fn third_party_bucket(&self) -> (r: &Vec<Import>)
        ensures
            views_of(r@) == self@.third_party,
    {
        &self.third_party
    }

    /// The bucket declared under `name`; `None` when no bucket carries
    /// that name.
    pub fn custom_bucket(&self, name: &str) -> (r: Option<&Vec<Import>>)
        ensures
            match r {
                Some(b) => exists|j: int| 0 <= j < self@.custom.len() && self@.custom[j].0
                    == name@ && views_of(b@) == self@.custom[j].1 && forall|k: int|
                    0 <= k < j ==> self@.custom[k].0 != name@,
                None => forall|j: int| 0 <= j < self@.custom.len() ==> self@.custom[j].0 != name@,
            },
    {
        let n = self.custom.len();
        let mut j: usize = 0;
        while j < n
            invariant
                j <= n,
                n == self@.custom.len(),
                forall|k: int| 0 <= k < j ==> self@.custom[k].0 != name@,
            decreases n - j,
        {
            proof {
                assert(self@.custom[j as int].0 == self.custom@[j as int].0@);
            }
            if crate::text::str_eq(self.custom[j].0.as_str(), name) {
                return Some(&self.custom[j].1);
            }
            j = j + 1;
        }
        None
    }
}

/// Drains the bucket in encounter order, inserting each import before the
/// first entry with a strictly greater path.
fn sort_imports(v: &mut Vec<Import>)
    ensures
        views_of(final(v)@) == sort_by_url(views_of(old(v)@)),
{
    let ghost orig = views_of(old(v)@);
    let mut out: Vec<Import> = Vec::new();
    let ghost mut i: int = 0;
    proof {
        assert(views_of(out@) =~= Seq::<ImportModel>::empty());
        assert(orig.take(0) =~= Seq::<ImportModel>::empty());
        assert(orig.skip(0) =~= orig);
    }
    while v.len() > 0
        invariant
            0 <= i <= orig.len(),
            views_of(v@) == orig.skip(i),
            views_of(out@) == sort_by_url(orig.take(i)),
        decreases v@.len(),
    {
        proof {
            assert(views_of(v@).len() == v@.len());
            assert(orig.skip(i).len() == orig.len() - i);
        }
        let ghost v0 = v@;
        let x = v.remove(0);
        proof {
            assert(x@ == views_of(v0)[0]);
            assert(orig.skip(i)[0] == orig[i]);
            v0.remove_ensures(0);
            assert(views_of(v@) =~= orig.skip(i + 1)) by {
                assert forall|k: int| 0 <= k < v@.len() implies views_of(v@)[k] == orig.skip(
                    i + 1,
                )[k] by {
                    assert(v@[k] == v0[k + 1]);
                    assert(views_of(v@)[k] == v@[k]@);
                    assert(views_of(v0)[k + 1] == v0[k + 1]@);
                    assert(views_of(v0)[k + 1] == orig.skip(i)[k + 1]);
                    assert(orig.skip(i)[k + 1] == orig[i + 1 + k]);
                    assert(orig.skip(i + 1)[k] == orig[i + 1 + k]);
                }
            }
        }
        insert_import_sorted(&mut out, x);
        proof {
            assert(orig.take(i + 1).drop_last() =~= orig.take(i));
            assert(orig.take(i + 1).len() == i + 1);
            assert(orig.take(i + 1).last() == orig[i]);
            i = i + 1;
        }
    }
    proof {
        assert(orig.take(i) =~= orig);
    }
    *v = out;
}

/// Inserts `x` before the first entry of `v` whose path is strictly greater.
fn insert_import_sorted(v: &mut Vec<Import>, x: Import)
    ensures
        views_of(final(v)@) == insert_sorted(x@, views_of(old(v)@)),
{
    let ghost s = views_of(old(v)@);
    let n = v.len();
    let mut p: usize = 0;
    while p < n && !str_lt(x.url.as_str(), v[p].url.as_str())
        invariant
            p <= n,
            n == v@.len(),
            s == views_of(v@),
            forall|k: int| 0 <= k < p ==> !lex_lt(x@.url, #[trigger] s[k].url),
        decreases n - p,
    {
        proof {
            assert(s[p as int].url == v@[p as int].url@);
        }
        p = p + 1;
    }
    proof {
        if p < n {
            assert(s[p as int].url == v@[p as int].url@);
        }
        lemma_insert_sorted_at(x@, s, p as int);
    }
    v.insert(p, x);
    proof {
        assert(views_of(v@) =~= s.take(p as int) + seq![x@] + s.skip(p as int));
    }
}

/// A sorter whose buckets are all empty holds no imports.
pub proof fn lemma_count_all_empty(cs: Seq<(Seq<char>, Seq<ImportModel>)>)
    requires
        forall|j: int| 0 <= j < cs.len() ==> #[trigger] cs[j].1.len() == 0,
    ensures
        custom_count(cs) == 0,
    decreases cs.len(),
{
    if cs.len() > 0 {
        let c0 = cs.drop_last();
        assert(forall|j: int| 0 <= j < c0.len() ==> c0[j] == #[trigger] cs[j]);
        lemma_count_all_empty(c0);
    }
}

proof fn lemma_count_core_push(m: SorterModel, i: ImportModel)
    requires
        classify(keys_of(m), i.url) == 0,
    ensures
        total_count(insert_model(m, i)) == total_count(m) + 1,
{
}

proof fn lemma_count_third_push(m: SorterModel, i: ImportModel)
    requires
        classify(keys_of(m), i.url) == 1,
    ensures
        total_count(insert_model(m, i)) == total_count(m) + 1,
{
}

proof fn lemma_count_custom_push(m: SorterModel, i: ImportModel, b: int)
    requires
        classify(keys_of(m), i.url) == 2 + b,
        0 <= b < m.custom.len(),
    ensures
        total_count(insert_model(m, i)) == total_count(m) + 1,
{
    let c1 = insert_model(m, i).custom;
    lemma_count_update(m.custom, c1, b, 1);
}

/// Updating one custom bucket changes the count by the bucket's growth.
proof fn lemma_count_update(
    c0: Seq<(Seq<char>, Seq<ImportModel>)>,
    c1: Seq<(Seq<char>, Seq<ImportModel>)>,
    b: int,
    d: int,
)
    requires
        c0.len() == c1.len(),
        0 <= b < c0.len(),
        c1[b].1.len() == c0[b].1.len() + d,
        forall|j: int| 0 <= j < c0.len() && j != b ==> #[trigger] c1[j].1.len() == c0[j].1.len(),
    ensures
        custom_count(c1) == custom_count(c0) + d,
    decreases c0.len(),
{
    if c0.len() > 0 {
        let last = c0.len() - 1;
        let d0 = c0.drop_last();
        let d1 = c1.drop_last();
        assert(forall|j: int| 0 <= j < d0.len() ==> d0[j] == #[trigger] c0[j]);
        assert(forall|j: int| 0 <= j < d1.len() ==> d1[j] == #[trigger] c1[j]);
        if b == last {
            lemma_count_same(d0, d1);
        } else {
            lemma_count_update(d0, d1, b, d);
        }
    }
}

/// Buckets of equal lengths count the same.
proof fn lemma_count_same(
    c0: Seq<(Seq<char>, Seq<ImportModel>)>,
    c1: Seq<(Seq<char>, Seq<ImportModel>)>,
)
    requires
        c0.len() == c1.len(),
        forall|j: int| 0 <= j < c0.len() ==> #[trigger] c1[j].1.len() == c0[j].1.len(),
    ensures
        custom_count(c1) == custom_count(c0),
    decreases c0.len(),
{
    if c0.len() > 0 {
        let d0 = c0.drop_last();
        let d1 = c1.drop_last();
        assert(forall|j: int| 0 <= j < d0.len() ==> d0[j] == #[trigger] c0[j]);
        assert(forall|j: int| 0 <= j < d1.len() ==> d1[j] == #[trigger] c1[j]);
        lemma_count_same(d0, d1);
    }
}

/// Sorting keeps every bucket's size, so the total stands.
pub proof fn lemma_count_sort(m: SorterModel)
    ensures
        total_count(sort_model(m)) == total_count(m),
{
    lemma_sort_sorted(m.core);
    lemma_sort_sorted(m.third_party);
    let c1 = sort_model(m).custom;
    assert forall|j: int| 0 <= j < m.custom.len() implies #[trigger] c1[j].1.len()
        == m.custom[j].1.len() by {
        lemma_sort_sorted(m.custom[j].1);
    }
    lemma_count_same(m.custom, c1);
}

} // verus!
