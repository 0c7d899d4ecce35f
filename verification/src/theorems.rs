//! The guarantees of the rewrite, stated and proved over the models:
//! classification, bucket order in the output, preservation of non-import
//! content, the single-versus-block formatting rule, and the stability of
//! rewriting a file the tool has already rewritten.

use vstd::prelude::*;
use crate::import::{ImportModel, import_wf, render_import};
use crate::matcher::{
    has_import_at, lemma_blank_matches_nothing, match_begin_spec, match_end_spec,
    match_in_block_spec, match_single_spec, parse_quoted,
};
use crate::sorter::{
    best_custom, buckets_of, classify, first_single_from, fresh_sorter, insert_model, keys_of,
    lemma_best_custom, lemma_buckets_count, lemma_first_single_exists, lemma_sort_sorted,
    lemma_sorted_sort_id, sort_by_url, sort_model, sorted_by_url, SorterModel, total_count,
};
use crate::file::{
    anchored, entry_line, entries_of, block_lines_from, find_insert_pos, first_nonblank_from,
    import_close_line, import_open_line, import_section, insert_all, insert_pos, insert_pos_hit,
    is_package_line, lines_view, output_of, scan, ScanResult, single_line,
};
use crate::text::{
    is_blank, is_name_char, is_wspace, last_nonws, lemma_name_end_run, lemma_ws_end_run,
    str_prefix, ws_end,
};

verus! {

/// The writer's one-line import declaration reads back as the very import
/// it was written from, and as nothing else.
pub proof fn lemma_single_line_reads_back(i: ImportModel)
    requires
        import_wf(i),
    ensures
        match_single_spec(single_line(i)) == Some(i),
        !match_begin_spec(single_line(i)),
        !is_package_line(single_line(i)),
{
    let l = single_line(i);
    assert(l[0] == 'i');
    assert(!is_wspace('i'));
    lemma_ws_end_run(l, 0, 0);
    assert(has_import_at(l, 0));
    match i.name {
        Some(nm) => {
            let n = nm.len() as int;
            let u = i.url.len() as int;
            assert(l.len() == 10 + n + u);
            assert(l[6] == ' ');
            assert(forall|k: int| 0 <= k < n ==> l[7 + k] == #[trigger] nm[k]);
            assert(is_name_char(nm[0]));
            assert(!is_wspace(l[7]));
            lemma_ws_end_run(l, 6, 7);
            assert forall|k: int| 7 <= k < 7 + n implies is_name_char(#[trigger] l[k]) by {
                assert(l[k] == nm[k - 7]);
            }
            assert(l[7 + n] == ' ');
            lemma_name_end_run(l, 7, 7 + n);
            assert(l[8 + n] == '"');
            lemma_ws_end_run(l, 7 + n, 8 + n);
            assert(l.last() == '"');
            assert(last_nonws(l) == l.len() - 1);
            assert(l[l.len() - 1] == '"');
            assert(l.len() - 1 >= 8 + n + 2);
            assert(l.subrange(9 + n, l.len() - 1) =~= i.url);
            assert(l.subrange(7, 7 + n) =~= nm);
            assert(match_single_spec(l) == Some(i));
            assert(l[ws_end(l, 6)] == nm[0]);
            assert(nm[0] != '(');
        },
        None => {
            let u = i.url.len() as int;
            assert(l.len() == 9 + u);
            assert(l[6] == ' ');
            assert(l[7] == '"');
            assert(!is_wspace(l[7]));
            lemma_ws_end_run(l, 6, 7);
            assert(!is_name_char('"'));
            lemma_name_end_run(l, 7, 7);
            lemma_ws_end_run(l, 7, 7);
            assert(l.last() == '"');
            assert(last_nonws(l) == l.len() - 1);
            assert(l.len() - 1 >= 7 + 2);
            assert(l.subrange(8, l.len() - 1) =~= i.url);
            assert(l.subrange(7, 7) =~= Seq::<char>::empty());
            assert(match_single_spec(l) == Some(i));
            assert(l[ws_end(l, 6)] == '"');
        },
    }
    assert(l[0] != 'p');
}

/// The writer's block entry reads back as the very import it was written
/// from; it neither closes the block nor resembles anything else.
pub proof fn lemma_entry_line_reads_back(i: ImportModel)
    requires
        import_wf(i),
    ensures
        match_in_block_spec(entry_line(i)) == Some(i),
        !match_end_spec(entry_line(i)),
{
    let l = entry_line(i);
    assert(l[0] == '\t');
    assert(is_wspace('\t'));
    match i.name {
        Some(nm) => {
            let n = nm.len() as int;
            let u = i.url.len() as int;
            assert(l.len() == 4 + n + u);
            assert(forall|k: int| 0 <= k < n ==> l[1 + k] == #[trigger] nm[k]);
            assert(is_name_char(nm[0]));
            assert(!is_wspace(l[1]));
            lemma_ws_end_run(l, 0, 1);
            assert forall|k: int| 1 <= k < 1 + n implies is_name_char(#[trigger] l[k]) by {
                assert(l[k] == nm[k - 1]);
            }
            assert(l[1 + n] == ' ');
            lemma_name_end_run(l, 1, 1 + n);
            assert(l[2 + n] == '"');
            lemma_ws_end_run(l, 1 + n, 2 + n);
            assert(l.last() == '"');
            assert(last_nonws(l) == l.len() - 1);
            assert(l.len() - 1 >= 2 + n + 2);
            assert(l.subrange(3 + n, l.len() - 1) =~= i.url);
            assert(l.subrange(1, 1 + n) =~= nm);
            assert(match_in_block_spec(l) == Some(i));
            assert(l[ws_end(l, 0)] == nm[0]);
            assert(nm[0] != ')');
        },
        None => {
            let u = i.url.len() as int;
            assert(l.len() == 3 + u);
            assert(l[1] == '"');
            assert(!is_wspace(l[1]));
            lemma_ws_end_run(l, 0, 1);
            assert(!is_name_char('"'));
            lemma_name_end_run(l, 1, 1);
            lemma_ws_end_run(l, 1, 1);
            assert(l.last() == '"');
            assert(last_nonws(l) == l.len() - 1);
            assert(l.len() - 1 >= 1 + 2);
            assert(l.subrange(2, l.len() - 1) =~= i.url);
            assert(l.subrange(1, 1) =~= Seq::<char>::empty());
            assert(match_in_block_spec(l) == Some(i));
            assert(l[ws_end(l, 0)] == '"');
        },
    }
}

/// The writer's opening line reads back as the opening of a block import
/// and as nothing else.
pub proof fn lemma_open_line_reads_back()
    ensures
        match_begin_spec(import_open_line()),
        match_single_spec(import_open_line()) is None,
        !is_package_line(import_open_line()),
{
    let l = import_open_line();
    assert(l[0] == 'i');
    assert(!is_wspace('i'));
    lemma_ws_end_run(l, 0, 0);
    assert(has_import_at(l, 0));
    assert(l[6] == ' ');
    assert(l[7] == '(');
    assert(!is_wspace('('));
    lemma_ws_end_run(l, 6, 7);
    lemma_ws_end_run(l, 8, 8);
    assert(!is_name_char('('));
    lemma_name_end_run(l, 7, 7);
    lemma_ws_end_run(l, 7, 7);
    assert(match_begin_spec(l));
    assert(l[0] != 'p');
}

/// The writer's closing line reads back as the end of a block import.
pub proof fn lemma_close_line_reads_back()
    ensures
        match_end_spec(import_close_line()),
{
    let l = import_close_line();
    assert(l[0] == ')');
    assert(!is_wspace(')'));
    lemma_ws_end_run(l, 0, 0);
    lemma_ws_end_run(l, 1, 1);
}

/// Classification is deterministic and favours the longest matching
/// prefix: a path without both a dot and a slash is a core import; a
/// domain-like path matching no custom prefix is third-party; a domain-like
/// path matching at least one custom prefix lands in a matching bucket of
/// maximal prefix length.
pub proof fn theorem_classification(keys: Seq<Seq<char>>, url: Seq<char>)
    ensures
        !(url.contains('.') && url.contains('/')) ==> classify(keys, url) == 0,
        url.contains('.') && url.contains('/') && (forall|i: int|
            0 <= i < keys.len() ==> !str_prefix(#[trigger] keys[i], url)) ==> classify(keys, url)
            == 1,
        url.contains('.') && url.contains('/') && (exists|i: int|
            0 <= i < keys.len() && str_prefix(#[trigger] keys[i], url)) ==> {
            let j = classify(keys, url) - 2;
            &&& 0 <= j < keys.len()
            &&& str_prefix(keys[j], url)
            &&& forall|i: int|
                0 <= i < keys.len() && str_prefix(#[trigger] keys[i], url) ==> keys[i].len()
                    <= keys[j].len()
        },
{
    lemma_best_custom(keys, url);
}

/// After a sort, every bucket's import paths are non-decreasing.
pub proof fn theorem_sort_correct(m: SorterModel)
    ensures
        sorted_by_url(sort_model(m).core),
        sorted_by_url(sort_model(m).third_party),
        forall|k: int| 0 <= k < m.custom.len() ==> sorted_by_url(
            (#[trigger] sort_model(m).custom[k]).1,
        ),
{
    lemma_sort_sorted(m.core);
    lemma_sort_sorted(m.third_party);
    assert forall|k: int| 0 <= k < m.custom.len() implies sorted_by_url(
        (#[trigger] sort_model(m).custom[k]).1,
    ) by {
        lemma_sort_sorted(m.custom[k].1);
        assert(sort_model(m).custom[k].1 == sort_by_url(m.custom[k].1));
    }
}

/// One import makes a one-line declaration, none makes no import section,
/// and two or more make a parenthesized block with a blank line only
/// between consecutive non-empty buckets.
pub proof fn theorem_single_vs_block(lines: Seq<Seq<char>>, m: SorterModel)
    ensures
        total_count(m) == 0 ==> output_of(lines, m) == lines,
        total_count(m) == 1 ==> (first_single_from(buckets_of(m), 0) matches Some(i)
            && output_of(lines, m) == lines.take(insert_pos(lines)) + seq![
            single_line(i),
            Seq::<char>::empty(),
        ] + lines.skip(first_nonblank_from(lines, insert_pos(lines)))),
        total_count(m) >= 2 ==> output_of(lines, m) == lines.take(insert_pos(lines)) + (seq![
            import_open_line(),
        ] + block_lines_from(buckets_of(m), 0, false) + seq![
            import_close_line(),
            Seq::<char>::empty(),
        ]) + lines.skip(first_nonblank_from(lines, insert_pos(lines))),
{
    if total_count(m) == 1 {
        lemma_buckets_count(m);
        lemma_first_single_exists(buckets_of(m), 0);
    }
}

/// The slot scan stays within the file.
pub proof fn lemma_find_pos_bounds(lines: Seq<Seq<char>>, i: int, il: int)
    requires
        0 <= i <= lines.len(),
    ensures
        i <= find_insert_pos(lines, i, il) <= lines.len(),
    decreases lines.len() - i,
{
    if i < lines.len() {
        if is_package_line(lines[i]) {
            lemma_find_pos_bounds(lines, i + 1, i + 2);
        } else if i != il {
            lemma_find_pos_bounds(lines, i + 1, il);
        }
    }
}

/// Everything before the first non-blank line is blank, and the scan stops
/// at a non-blank line or the end.
pub proof fn lemma_first_nonblank_props(lines: Seq<Seq<char>>, k: int)
    requires
        0 <= k <= lines.len(),
    ensures
        k <= first_nonblank_from(lines, k) <= lines.len(),
        forall|j: int| k <= j < first_nonblank_from(lines, k) ==> is_blank(#[trigger] lines[j]),
        first_nonblank_from(lines, k) < lines.len() ==> !is_blank(
            lines[first_nonblank_from(lines, k)],
        ),
    decreases lines.len() - k,
{
    if k < lines.len() && is_blank(lines[k]) {
        lemma_first_nonblank_props(lines, k + 1);
    }
}

/// Every line the rewrite keeps out of the import section appears in the
/// output unchanged and in its original order: the output is the retained
/// lines up to the slot, then the import section, then the retained lines
/// from the first non-blank line after the slot on; the lines in between,
/// the only ones dropped, are all blank.
pub proof fn theorem_content_preserved(lines: Seq<Seq<char>>, m: SorterModel)
    ensures
        total_count(m) == 0 ==> output_of(lines, m) == lines,
        total_count(m) > 0 ==> {
            let p = insert_pos(lines);
            let q = first_nonblank_from(lines, p);
            &&& 0 <= p <= q <= lines.len()
            &&& output_of(lines, m) == lines.take(p) + import_section(m) + lines.skip(q)
            &&& forall|j: int| p <= j < q ==> is_blank(#[trigger] lines[j])
        },
{
    if total_count(m) > 0 {
        lemma_find_pos_bounds(lines, 0, 2);
        lemma_first_nonblank_props(lines, insert_pos(lines));
    }
}

/// No line a read retains looks like an import declaration: non-blank
/// retained lines matched nothing, and blank lines match nothing either.
pub proof fn lemma_scan_retained_safe(lines: Seq<Seq<char>>, k: int, inside: bool)
    requires
        scan(lines, k, inside) is Some,
    ensures
        forall|j: int| 0 <= j < scan(lines, k, inside).unwrap().retained.len() ==> {
            let l = #[trigger] scan(lines, k, inside).unwrap().retained[j];
            match_single_spec(l) is None && !match_begin_spec(l)
        },
    decreases lines.len() - k,
{
    if 0 <= k < lines.len() {
        let l = lines[k];
        if inside {
            if match_end_spec(l) {
                lemma_scan_retained_safe(lines, k + 1, false);
            } else if match_in_block_spec(l) is Some {
                lemma_scan_retained_safe(lines, k + 1, true);
            } else {
                lemma_blank_matches_nothing(l);
                lemma_scan_retained_safe(lines, k + 1, true);
            }
        } else {
            if match_single_spec(l) is Some {
                lemma_scan_retained_safe(lines, k + 1, false);
            } else if match_begin_spec(l) {
                lemma_scan_retained_safe(lines, k + 1, true);
            } else {
                lemma_scan_retained_safe(lines, k + 1, false);
            }
        }
    }
}

/// Every import a read captures is well formed.
pub proof fn lemma_scan_imports_wf(lines: Seq<Seq<char>>, k: int, inside: bool)
    requires
        scan(lines, k, inside) is Some,
    ensures
        forall|j: int| 0 <= j < scan(lines, k, inside).unwrap().imports.len() ==> import_wf(
            #[trigger] scan(lines, k, inside).unwrap().imports[j],
        ),
    decreases lines.len() - k,
{
    if 0 <= k < lines.len() {
        let l = lines[k];
        crate::matcher::lemma_captured_wf(l);
        if inside {
            if match_end_spec(l) {
                lemma_scan_imports_wf(lines, k + 1, false);
            } else if match_in_block_spec(l) is Some {
                lemma_scan_imports_wf(lines, k + 1, true);
            } else {
                lemma_scan_imports_wf(lines, k + 1, true);
            }
        } else {
            if match_single_spec(l) is Some {
                lemma_scan_imports_wf(lines, k + 1, false);
            } else if match_begin_spec(l) {
                lemma_scan_imports_wf(lines, k + 1, true);
            } else {
                lemma_scan_imports_wf(lines, k + 1, false);
            }
        }
    }
}

/// A stretch of lines in which nothing looks like an import is retained
/// whole.
pub proof fn lemma_scan_all_retained(lines: Seq<Seq<char>>, k: int)
    requires
        0 <= k <= lines.len(),
        forall|j: int| k <= j < lines.len() ==> match_single_spec(#[trigger] lines[j]) is None
            && !match_begin_spec(lines[j]),
    ensures
        scan(lines, k, false) == Some(
            ScanResult { retained: lines.skip(k), imports: Seq::<ImportModel>::empty() },
        ),
    decreases lines.len() - k,
{
    if k < lines.len() {
        lemma_scan_all_retained(lines, k + 1);
        assert(seq![lines[k]] + lines.skip(k + 1) =~= lines.skip(k));
    } else {
        assert(lines.skip(k) =~= Seq::<Seq<char>>::empty());
    }
}

/// Scanning from the top is scanning past a harmless prefix and going on.
pub proof fn lemma_scan_prefix(lines: Seq<Seq<char>>, k: int, a: int)
    requires
        0 <= k <= a <= lines.len(),
        forall|j: int| k <= j < a ==> match_single_spec(#[trigger] lines[j]) is None
            && !match_begin_spec(lines[j]),
    ensures
        scan(lines, k, false) == match scan(lines, a, false) {
            Some(r) => Some(
                ScanResult { retained: lines.subrange(k, a) + r.retained, imports: r.imports },
            ),
            None => None,
        },
    decreases a - k,
{
    if k < a {
        lemma_scan_prefix(lines, k + 1, a);
        match scan(lines, a, false) {
            Some(r) => {
                assert(seq![lines[k]] + (lines.subrange(k + 1, a) + r.retained) =~= lines.subrange(
                    k,
                    a,
                ) + r.retained);
            },
            None => {},
        }
    } else {
        match scan(lines, a, false) {
            Some(r) => {
                assert(lines.subrange(k, a) + r.retained =~= r.retained);
            },
            None => {},
        }
    }
}

/// The imports of all buckets from `k` on, in bucket order.
pub open spec fn flat_from(bs: Seq<Seq<ImportModel>>, k: int) -> Seq<ImportModel>
    decreases bs.len() - k,
{
    if k < 0 || k >= bs.len() {
        Seq::empty()
    } else {
        bs[k] + flat_from(bs, k + 1)
    }
}

/// The blank separator lines the block body holds from bucket `k` on.
pub open spec fn body_blanks(bs: Seq<Seq<ImportModel>>, k: int, sep: bool) -> Seq<Seq<char>>
    decreases bs.len() - k,
{
    if k < 0 || k >= bs.len() {
        Seq::empty()
    } else if bs[k].len() == 0 {
        body_blanks(bs, k + 1, sep)
    } else {
        (if sep {
            seq![Seq::<char>::empty()]
        } else {
            Seq::empty()
        }) + body_blanks(bs, k + 1, true)
    }
}

/// Every import of every bucket is well formed.
pub open spec fn buckets_wf(bs: Seq<Seq<ImportModel>>) -> bool {
    forall|k: int, j: int| 0 <= k < bs.len() && 0 <= j < bs[k].len() ==> import_wf(
        #[trigger] bs[k][j],
    )
}

/// Every import sits in the bucket its path classifies to.
pub open spec fn well_placed(m: SorterModel) -> bool {
    &&& forall|j: int| 0 <= j < m.core.len() ==> classify(
        keys_of(m),
        (#[trigger] m.core[j]).url,
    ) == 0
    &&& forall|j: int| 0 <= j < m.third_party.len() ==> classify(
        keys_of(m),
        (#[trigger] m.third_party[j]).url,
    ) == 1
    &&& forall|k: int, j: int| 0 <= k < m.custom.len() && 0 <= j < m.custom[k].1.len()
        ==> classify(keys_of(m), (#[trigger] m.custom[k].1[j]).url) == 2 + k
}

/// Inserting changes no bucket key.
pub proof fn lemma_insert_model_keys(m: SorterModel, i: ImportModel)
    ensures
        keys_of(insert_model(m, i)) == keys_of(m),
{
    lemma_best_custom(keys_of(m), i.url);
    assert(keys_of(m).len() == m.custom.len());
    assert(keys_of(insert_model(m, i)) =~= keys_of(m));
}

/// Inserting a stream changes no bucket key.
pub proof fn lemma_insert_all_keys(m: SorterModel, imps: Seq<ImportModel>)
    ensures
        keys_of(insert_all(m, imps)) == keys_of(m),
    decreases imps.len(),
{
    if imps.len() > 0 {
        lemma_insert_all_keys(m, imps.drop_last());
        lemma_insert_model_keys(insert_all(m, imps.drop_last()), imps.last());
    }
}

/// Sorting changes no bucket key.
pub proof fn lemma_sort_keys(m: SorterModel)
    ensures
        keys_of(sort_model(m)) == keys_of(m),
{
    assert(keys_of(sort_model(m)) =~= keys_of(m));
}

/// Insertion preserves well-placedness.
pub proof fn lemma_insert_model_well_placed(m: SorterModel, i: ImportModel)
    requires
        well_placed(m),
    ensures
        well_placed(insert_model(m, i)),
{
    let m1 = insert_model(m, i);
    let b = classify(keys_of(m), i.url);
    lemma_best_custom(keys_of(m), i.url);
    assert(keys_of(m).len() == m.custom.len());
    lemma_insert_model_keys(m, i);
    if b == 0 {
        assert(forall|j: int| 0 <= j < m.core.len() ==> m1.core[j] == #[trigger] m.core[j]);
        assert(m1.core.last() == i);
    } else if b == 1 {
        assert(forall|j: int| 0 <= j < m.third_party.len() ==> m1.third_party[j]
            == #[trigger] m.third_party[j]);
        assert(m1.third_party.last() == i);
    } else {
        assert(0 <= b - 2 < m.custom.len());
        assert(forall|k: int| 0 <= k < m.custom.len() && k != b - 2 ==> m1.custom[k]
            == #[trigger] m.custom[k]);
        assert(forall|j: int| 0 <= j < m.custom[b - 2].1.len() ==> m1.custom[b - 2].1[j]
            == #[trigger] m.custom[b - 2].1[j]);
        assert(m1.custom[b - 2].1.last() == i);
    }
}

/// Inserting a whole stream preserves well-placedness.
pub proof fn lemma_insert_all_well_placed(m: SorterModel, imps: Seq<ImportModel>)
    requires
        well_placed(m),
    ensures
        well_placed(insert_all(m, imps)),
    decreases imps.len(),
{
    if imps.len() > 0 {
        lemma_insert_all_well_placed(m, imps.drop_last());
        lemma_insert_model_well_placed(insert_all(m, imps.drop_last()), imps.last());
    }
}

/// Sorting preserves well-placedness: it only rearranges within buckets.
pub proof fn lemma_sort_well_placed(m: SorterModel)
    requires
        well_placed(m),
    ensures
        well_placed(sort_model(m)),
{
    let m1 = sort_model(m);
    lemma_sort_keys(m);
    crate::sorter::lemma_sort_contents(m.core);
    assert forall|j: int| 0 <= j < m1.core.len() implies classify(
        keys_of(m1),
        (#[trigger] m1.core[j]).url,
    ) == 0 by {
        assert(m.core.contains(m1.core[j]));
        let k = choose|k: int| 0 <= k < m.core.len() && m.core[k] == m1.core[j];
        assert(classify(keys_of(m), m.core[k].url) == 0);
    }
    crate::sorter::lemma_sort_contents(m.third_party);
    assert forall|j: int| 0 <= j < m1.third_party.len() implies classify(
        keys_of(m1),
        (#[trigger] m1.third_party[j]).url,
    ) == 1 by {
        assert(m.third_party.contains(m1.third_party[j]));
        let k = choose|k: int|
            0 <= k < m.third_party.len() && m.third_party[k] == m1.third_party[j];
        assert(classify(keys_of(m), m.third_party[k].url) == 1);
    }
    assert forall|k: int, j: int|
        0 <= k < m1.custom.len() && 0 <= j < m1.custom[k].1.len() implies classify(
        keys_of(m1),
        (#[trigger] m1.custom[k].1[j]).url,
    ) == 2 + k by {
        crate::sorter::lemma_sort_contents(m.custom[k].1);
        assert(m1.custom[k].1 == sort_by_url(m.custom[k].1));
        assert(m.custom[k].1.contains(m1.custom[k].1[j]));
        let jj = choose|jj: int|
            0 <= jj < m.custom[k].1.len() && m.custom[k].1[jj] == m1.custom[k].1[j];
        assert(classify(keys_of(m), m.custom[k].1[jj].url) == 2 + k);
    }
}

/// The sorter with bucket `b` extended by a stream of imports.
pub open spec fn extend_bucket(m: SorterModel, b: int, elems: Seq<ImportModel>) -> SorterModel {
    if b == 0 {
        SorterModel { core: m.core + elems, ..m }
    } else if b == 1 {
        SorterModel { third_party: m.third_party + elems, ..m }
    } else {
        SorterModel {
            custom: m.custom.update(b - 2, (m.custom[b - 2].0, m.custom[b - 2].1 + elems)),
            ..m
        }
    }
}

/// Inserting a stream that classifies wholly into one bucket appends it
/// there.
pub proof fn lemma_reinsert_bucket(st: SorterModel, elems: Seq<ImportModel>, b: int)
    requires
        0 <= b < 2 + st.custom.len(),
        forall|j: int| 0 <= j < elems.len() ==> classify(
            keys_of(st),
            (#[trigger] elems[j]).url,
        ) == b,
    ensures
        insert_all(st, elems) == extend_bucket(st, b, elems),
    decreases elems.len(),
{
    if elems.len() == 0 {
        if b == 0 {
            assert(st.core + elems =~= st.core);
        } else if b == 1 {
            assert(st.third_party + elems =~= st.third_party);
        } else {
            assert(st.custom[b - 2].1 + elems =~= st.custom[b - 2].1);
            assert(extend_bucket(st, b, elems).custom =~= st.custom);
        }
        assert(insert_all(st, elems) =~= extend_bucket(st, b, elems));
    } else {
        let front = elems.drop_last();
        let x = elems.last();
        lemma_reinsert_bucket(st, front, b);
        let st1 = extend_bucket(st, b, front);
        lemma_insert_all_keys(st, front);
        assert(keys_of(st1) =~= keys_of(st));
        assert(classify(keys_of(st1), x.url) == b);
        let st2 = insert_model(st1, x);
        if b == 0 {
            assert(st2.core =~= st.core + elems);
            assert(st2 =~= extend_bucket(st, b, elems));
        } else if b == 1 {
            assert(st2.third_party =~= st.third_party + elems);
            assert(st2 =~= extend_bucket(st, b, elems));
        } else {
            assert(st2.custom[b - 2].1 =~= st.custom[b - 2].1 + elems);
            assert(st2.custom =~= extend_bucket(st, b, elems).custom);
            assert(st2 =~= extend_bucket(st, b, elems));
        }
    }
}

/// Inserting a concatenation is inserting the parts in turn.
pub proof fn lemma_insert_all_append(m: SorterModel, a: Seq<ImportModel>, b: Seq<ImportModel>)
    ensures
        insert_all(m, a + b) == insert_all(insert_all(m, a), b),
    decreases b.len(),
{
    if b.len() == 0 {
        assert(a + b =~= a);
    } else {
        lemma_insert_all_append(m, a, b.drop_last());
        assert((a + b).drop_last() =~= a + b.drop_last());
        assert((a + b).last() == b.last());
    }
}

/// The custom buckets with those at index `k` and beyond still empty.
pub open spec fn partial_customs(m: SorterModel, k: int) -> Seq<(Seq<char>, Seq<ImportModel>)> {
    Seq::new(
        m.custom.len(),
        |j: int|
            if j < k {
                m.custom[j]
            } else {
                (m.custom[j].0, Seq::<ImportModel>::empty())
            },
    )
}

/// The sorter with core and third-party filled and the custom buckets
/// before index `k` filled.
pub open spec fn state_to(m: SorterModel, k: int) -> SorterModel {
    SorterModel { core: m.core, third_party: m.third_party, custom: partial_customs(m, k) }
}

proof fn lemma_reinsert_customs(m: SorterModel, k: int)
    requires
        well_placed(m),
        0 <= k <= m.custom.len(),
    ensures
        insert_all(state_to(m, k), flat_from(buckets_of(m), 2 + k)) == m,
    decreases m.custom.len() - k,
{
    let bs = buckets_of(m);
    let kk = m.custom.len() as int;
    if k == kk {
        assert(flat_from(bs, 2 + k) == Seq::<ImportModel>::empty());
        assert(partial_customs(m, k) =~= m.custom);
        assert(state_to(m, k) =~= m);
    } else {
        let st = state_to(m, k);
        assert(bs[2 + k] == m.custom[k].1);
        assert(flat_from(bs, 2 + k) == bs[2 + k] + flat_from(bs, 2 + k + 1));
        lemma_insert_all_append(st, m.custom[k].1, flat_from(bs, 2 + k + 1));
        assert(keys_of(st) =~= keys_of(m));
        assert forall|j: int| 0 <= j < m.custom[k].1.len() implies classify(
            keys_of(st),
            (#[trigger] m.custom[k].1[j]).url,
        ) == 2 + k by {
            assert(classify(keys_of(m), m.custom[k].1[j].url) == 2 + k);
        }
        lemma_reinsert_bucket(st, m.custom[k].1, 2 + k);
        let st1 = extend_bucket(st, 2 + k, m.custom[k].1);
        assert(st.custom[k].1 + m.custom[k].1 =~= m.custom[k].1);
        assert(st1.custom =~= partial_customs(m, k + 1));
        assert(st1 =~= state_to(m, k + 1));
        lemma_reinsert_customs(m, k + 1);
    }
}

/// Re-inserting the flattened buckets of a well-placed sorter into a fresh
/// sorter with the same prefixes rebuilds it exactly.
pub proof fn lemma_reinsert(m: SorterModel)
    requires
        well_placed(m),
    ensures
        insert_all(fresh_sorter(keys_of(m)), flat_from(buckets_of(m), 0)) == m,
{
    let bs = buckets_of(m);
    let f = fresh_sorter(keys_of(m));
    assert(keys_of(f) =~= keys_of(m));
    assert(bs[0] == m.core);
    assert(bs[1] == m.third_party);
    assert(flat_from(bs, 0) == bs[0] + flat_from(bs, 1));
    assert(flat_from(bs, 1) == bs[1] + flat_from(bs, 2));
    lemma_insert_all_append(f, bs[0], flat_from(bs, 1));
    assert forall|j: int| 0 <= j < m.core.len() implies classify(
        keys_of(f),
        (#[trigger] m.core[j]).url,
    ) == 0 by {
        assert(classify(keys_of(m), m.core[j].url) == 0);
    }
    lemma_reinsert_bucket(f, m.core, 0);
    let st1 = extend_bucket(f, 0, m.core);
    assert(st1.core =~= m.core);
    lemma_insert_all_append(st1, bs[1], flat_from(bs, 2));
    assert(keys_of(st1) =~= keys_of(m));
    assert forall|j: int| 0 <= j < m.third_party.len() implies classify(
        keys_of(st1),
        (#[trigger] m.third_party[j]).url,
    ) == 1 by {
        assert(classify(keys_of(m), m.third_party[j].url) == 1);
    }
    lemma_reinsert_bucket(st1, m.third_party, 1);
    let st2 = extend_bucket(st1, 1, m.third_party);
    assert(st2.third_party =~= m.third_party);
    assert(st2.custom =~= partial_customs(m, 0)) by {
        assert forall|j: int| 0 <= j < m.custom.len() implies st2.custom[j] == partial_customs(
            m,
            0,
        )[j] by {
            assert(f.custom[j] == (keys_of(m)[j], Seq::<ImportModel>::empty()));
            assert(keys_of(m)[j] == m.custom[j].0);
        }
    }
    assert(st2 =~= state_to(m, 0));
    lemma_reinsert_customs(m, 0);
}

/// A sorted sorter is a fixed point of sorting.
pub proof fn lemma_sort_model_fixed(m: SorterModel)
    ensures
        sort_model(sort_model(m)) == sort_model(m),
{
    let s = sort_model(m);
    lemma_sort_sorted(m.core);
    lemma_sorted_sort_id(s.core);
    lemma_sort_sorted(m.third_party);
    lemma_sorted_sort_id(s.third_party);
    assert forall|k: int| 0 <= k < s.custom.len() implies (#[trigger] sort_model(s).custom[k])
        == s.custom[k] by {
        assert(s.custom[k] == (m.custom[k].0, sort_by_url(m.custom[k].1)));
        lemma_sort_sorted(m.custom[k].1);
        lemma_sorted_sort_id(sort_by_url(m.custom[k].1));
    }
    assert(sort_model(s).custom =~= s.custom);
    assert(sort_model(s) =~= s);
}

/// Flattening counts every import once.
pub proof fn lemma_flat_len(bs: Seq<Seq<ImportModel>>, k: int)
    ensures
        flat_from(bs, k).len() == if 0 <= k <= bs.len() {
            crate::sorter::buckets_count_from(bs, k)
        } else {
            0
        },
    decreases bs.len() - k,
{
    if 0 <= k < bs.len() {
        lemma_flat_len(bs, k + 1);
    }
}

/// With exactly one import in all the buckets, the flattened stream is
/// that import alone, and it is the one the single-import probe finds.
pub proof fn lemma_flat_single(bs: Seq<Seq<ImportModel>>, k: int)
    requires
        0 <= k <= bs.len(),
        crate::sorter::buckets_count_from(bs, k) == 1,
    ensures
        first_single_from(bs, k) matches Some(i) && flat_from(bs, k) == seq![i],
    decreases bs.len() - k,
{
    crate::sorter::lemma_buckets_count_nonneg(bs, k + 1);
    if k < bs.len() {
        if bs[k].len() == 0 {
            lemma_flat_single(bs, k + 1);
            assert(flat_from(bs, k) =~= flat_from(bs, k + 1));
        } else {
            assert(bs[k].len() == 1);
            lemma_flat_len(bs, k + 1);
            assert(flat_from(bs, k + 1) =~= Seq::<ImportModel>::empty());
            assert(flat_from(bs, k) =~= seq![bs[k][0]]);
        }
    }
}

/// Every separator the block body holds is a blank line.
pub proof fn lemma_body_blanks_blank(bs: Seq<Seq<ImportModel>>, k: int, sep: bool)
    ensures
        forall|j: int| 0 <= j < body_blanks(bs, k, sep).len() ==> #[trigger] body_blanks(
            bs,
            k,
            sep,
        )[j] == Seq::<char>::empty(),
    decreases bs.len() - k,
{
    if 0 <= k < bs.len() {
        lemma_body_blanks_blank(bs, k + 1, sep);
        lemma_body_blanks_blank(bs, k + 1, true);
        if bs[k].len() == 0 {
            let r = body_blanks(bs, k, sep);
            assert forall|j: int| 0 <= j < r.len() implies #[trigger] r[j]
                == Seq::<char>::empty() by {
                assert(r[j] == body_blanks(bs, k + 1, sep)[j]);
            }
        } else {
            let r = body_blanks(bs, k, sep);
            let pre: Seq<Seq<char>> = if sep {
                seq![Seq::<char>::empty()]
            } else {
                Seq::empty()
            };
            assert(r == pre + body_blanks(bs, k + 1, true));
            assert forall|j: int| 0 <= j < r.len() implies #[trigger] r[j]
                == Seq::<char>::empty() by {
                if j >= pre.len() {
                    assert(r[j] == body_blanks(bs, k + 1, true)[j - pre.len()]);
                }
            }
        }
    }
}

/// A known run of blank lines places the first non-blank line right after
/// it.
pub proof fn lemma_fnb_run(lines: Seq<Seq<char>>, a: int, e: int)
    requires
        0 <= a <= e <= lines.len(),
        forall|j: int| a <= j < e ==> is_blank(#[trigger] lines[j]),
        e == lines.len() || !is_blank(lines[e]),
    ensures
        first_nonblank_from(lines, a) == e,
    decreases e - a,
{
    if a < e {
        lemma_fnb_run(lines, a + 1, e);
    }
}

/// Scanning a run of emitted entry lines inside a block captures exactly
/// the bucket's imports, in order.
#[verifier::rlimit(60)]
proof fn lemma_scan_entries(lines: Seq<Seq<char>>, a: int, b: Seq<ImportModel>, j: int)
    requires
        0 <= j <= b.len(),
        forall|jj: int| 0 <= jj < b.len() ==> import_wf(#[trigger] b[jj]),
        0 <= a,
        a + (b.len() - j) <= lines.len(),
        forall|jj: int| j <= jj < b.len() ==> #[trigger] lines[a + (jj - j)] == entry_line(
            b[jj],
        ),
    ensures
        scan(lines, a, true) == match scan(lines, a + (b.len() - j), true) {
            Some(r) => Some(
                ScanResult { retained: r.retained, imports: b.skip(j) + r.imports },
            ),
            None => None,
        },
    decreases b.len() - j,
{
    if j == b.len() {
        match scan(lines, a, true) {
            Some(r) => {
                assert(b.skip(j) =~= Seq::<ImportModel>::empty());
                assert(b.skip(j) + r.imports =~= r.imports);
            },
            None => {},
        }
    } else {
        assert(lines[a + (j - j)] == entry_line(b[j]));
        assert(lines[a] == entry_line(b[j]));
        lemma_entry_line_reads_back(b[j]);
        assert forall|jj: int| j + 1 <= jj < b.len() implies #[trigger] lines[(a + 1) + (jj - (j
            + 1))] == entry_line(b[jj]) by {
            assert(lines[a + (jj - j)] == entry_line(b[jj]));
            assert((a + 1) + (jj - (j + 1)) == a + (jj - j));
        }
        lemma_scan_entries(lines, a + 1, b, j + 1);
        assert(a + 1 + (b.len() - (j + 1)) == a + (b.len() - j));
        match scan(lines, a + (b.len() - j), true) {
            Some(r) => {
                assert(scan(lines, a + 1, true) == Some(
                    ScanResult { retained: r.retained, imports: b.skip(j + 1) + r.imports },
                ));
                assert(seq![b[j]] + (b.skip(j + 1) + r.imports) =~= b.skip(j) + r.imports);
            },
            None => {
                assert(scan(lines, a + 1, true) is None);
            },
        }
    }
}

/// Scanning the emitted block body inside a block retains exactly its
/// separator blanks and captures the buckets' imports, in bucket order.
proof fn lemma_scan_body(
    lines: Seq<Seq<char>>,
    a: int,
    bs: Seq<Seq<ImportModel>>,
    k: int,
    sep: bool,
)
    requires
        buckets_wf(bs),
        0 <= k,
        0 <= a,
        a + block_lines_from(bs, k, sep).len() <= lines.len(),
        forall|j: int| 0 <= j < block_lines_from(bs, k, sep).len() ==> #[trigger] lines[a + j]
            == block_lines_from(bs, k, sep)[j],
    ensures
        scan(lines, a, true) == match scan(
            lines,
            a + block_lines_from(bs, k, sep).len(),
            true,
        ) {
            Some(r) => Some(
                ScanResult {
                    retained: body_blanks(bs, k, sep) + r.retained,
                    imports: flat_from(bs, k) + r.imports,
                },
            ),
            None => None,
        },
    decreases bs.len() - k,
{
    let body = block_lines_from(bs, k, sep);
    if k >= bs.len() {
        match scan(lines, a, true) {
            Some(r) => {
                assert(body_blanks(bs, k, sep) + r.retained =~= r.retained);
                assert(flat_from(bs, k) + r.imports =~= r.imports);
            },
            None => {},
        }
    } else if bs[k].len() == 0 {
        lemma_scan_body(lines, a, bs, k + 1, sep);
        assert(body == block_lines_from(bs, k + 1, sep));
        match scan(lines, a + body.len(), true) {
            Some(r) => {
                assert(flat_from(bs, k) =~= flat_from(bs, k + 1));
            },
            None => {},
        }
    } else {
        let pre: Seq<Seq<char>> = if sep {
            seq![Seq::<char>::empty()]
        } else {
            Seq::empty()
        };
        let entries = entries_of(bs[k]);
        let rest = block_lines_from(bs, k + 1, true);
        assert(body == pre + entries + rest);
        let a1 = a + pre.len();
        let a2 = a1 + entries.len();
        assert forall|jj: int| 0 <= jj < bs[k].len() implies #[trigger] lines[a1 + (jj - 0)]
            == entry_line(bs[k][jj]) by {
            assert(body[pre.len() + jj] == entries[jj]);
            assert(lines[a + (pre.len() + jj)] == body[pre.len() + jj]);
            assert(entries[jj] == entry_line(bs[k][jj]));
        }
        assert forall|jj: int| 0 <= jj < bs[k].len() implies import_wf(#[trigger] bs[k][jj]) by {
            assert(buckets_wf(bs));
        }
        lemma_scan_entries(lines, a1, bs[k], 0);
        assert forall|j: int| 0 <= j < rest.len() implies #[trigger] lines[a2 + j] == block_lines_from(
            bs,
            k + 1,
            true,
        )[j] by {
            assert(body[pre.len() + entries.len() + j] == rest[j]);
            assert(lines[a + (pre.len() + entries.len() + j)] == body[pre.len()
                + entries.len() + j]);
        }
        lemma_scan_body(lines, a2, bs, k + 1, true);
        assert(a2 + rest.len() == a + body.len());
        let tail = scan(lines, a + body.len(), true);
        match tail {
            Some(r) => {
                assert(scan(lines, a2, true) == Some(
                    ScanResult {
                        retained: body_blanks(bs, k + 1, true) + r.retained,
                        imports: flat_from(bs, k + 1) + r.imports,
                    },
                ));
                assert(scan(lines, a1, true) == Some(
                    ScanResult {
                        retained: body_blanks(bs, k + 1, true) + r.retained,
                        imports: bs[k].skip(0) + (flat_from(bs, k + 1) + r.imports),
                    },
                ));
                assert(bs[k].skip(0) =~= bs[k]);
                assert(bs[k] + (flat_from(bs, k + 1) + r.imports) =~= flat_from(bs, k)
                    + r.imports);
                if sep {
                    assert(lines[a] == body[0]);
                    assert(body[0] == Seq::<char>::empty());
                    lemma_blank_matches_nothing(lines[a]);
                    assert(scan(lines, a, true) == Some(
                        ScanResult {
                            retained: seq![lines[a]] + (body_blanks(bs, k + 1, true)
                                + r.retained),
                            imports: bs[k] + (flat_from(bs, k + 1) + r.imports),
                        },
                    ));
                    assert(seq![lines[a]] + (body_blanks(bs, k + 1, true) + r.retained)
                        =~= body_blanks(bs, k, sep) + r.retained);
                } else {
                    assert(a1 == a);
                    assert(body_blanks(bs, k + 1, true) + r.retained =~= body_blanks(bs, k, sep)
                        + r.retained);
                }
            },
            None => {
                assert(scan(lines, a2, true) is None);
                assert(scan(lines, a1, true) is None);
                if sep {
                    assert(lines[a] == body[0]);
                    assert(body[0] == Seq::<char>::empty());
                    lemma_blank_matches_nothing(lines[a]);
                    assert(scan(lines, a, true) is None);
                }
            },
        }
    }
}

/// The slot scan lands at the same position on any file that agrees with
/// the original up to the slot, provided the line now at the slot does not
/// open a package clause.  The original scan must have reached its slot
/// exactly.
pub proof fn lemma_insert_pos_stable(a: Seq<Seq<char>>, b: Seq<Seq<char>>, i: int, il: int)
    requires
        0 <= i <= il,
        i <= a.len(),
        insert_pos_hit(a, i, il),
        forall|k: int| i <= k < find_insert_pos(a, i, il) ==> b[k] == #[trigger] a[k],
        find_insert_pos(a, i, il) < b.len(),
        !is_package_line(b[find_insert_pos(a, i, il)]),
    ensures
        find_insert_pos(b, i, il) == find_insert_pos(a, i, il),
    decreases a.len() - i,
{
    let p = find_insert_pos(a, i, il);
    lemma_find_pos_bounds(a, i, il);
    if i >= a.len() {
        assert(il == a.len());
        assert(p == a.len());
        assert(i == p);
    } else if is_package_line(a[i]) {
        lemma_find_pos_bounds(a, i + 1, i + 2);
        assert(b[i] == a[i]);
        lemma_insert_pos_stable(a, b, i + 1, i + 2);
    } else if i == il {
        assert(p == i);
    } else {
        lemma_find_pos_bounds(a, i + 1, il);
        assert(b[i] == a[i]);
        lemma_insert_pos_stable(a, b, i + 1, il);
    }
}

/// Inserting a well-formed import keeps every bucket's imports well
/// formed.
proof fn lemma_insert_model_buckets_wf(m: SorterModel, i: ImportModel)
    requires
        buckets_wf(buckets_of(m)),
        import_wf(i),
    ensures
        buckets_wf(buckets_of(insert_model(m, i))),
{
    let b = classify(keys_of(m), i.url);
    lemma_best_custom(keys_of(m), i.url);
    assert(keys_of(m).len() == m.custom.len());
    let bs = buckets_of(m);
    let m1 = insert_model(m, i);
    let bs1 = buckets_of(m1);
    assert(bs[0] == m.core && bs[1] == m.third_party);
    assert(bs1[0] == m1.core && bs1[1] == m1.third_party);
    assert forall|k: int, j: int| 0 <= k < bs1.len() && 0 <= j < bs1[k].len() implies import_wf(
        #[trigger] bs1[k][j],
    ) by {
        if k >= 2 {
            assert(bs1[k] == m1.custom[k - 2].1);
            assert(bs[k] == m.custom[k - 2].1);
        }
        let old_bucket: Seq<ImportModel> = if k == 0 {
            m.core
        } else if k == 1 {
            m.third_party
        } else {
            m.custom[k - 2].1
        };
        if b == k {
            assert(bs1[k] == old_bucket.push(i));
            if j < old_bucket.len() {
                assert(bs1[k][j] == bs[k][j]);
            } else {
                assert(bs1[k][j] == i);
            }
        } else {
            assert(bs1[k] == old_bucket);
            assert(bs1[k][j] == bs[k][j]);
        }
    }
}

/// Inserting a stream of well-formed imports keeps the buckets well
/// formed.
proof fn lemma_insert_all_buckets_wf(m: SorterModel, imps: Seq<ImportModel>)
    requires
        buckets_wf(buckets_of(m)),
        forall|j: int| 0 <= j < imps.len() ==> import_wf(#[trigger] imps[j]),
    ensures
        buckets_wf(buckets_of(insert_all(m, imps))),
    decreases imps.len(),
{
    if imps.len() > 0 {
        lemma_insert_all_buckets_wf(m, imps.drop_last());
        lemma_insert_model_buckets_wf(insert_all(m, imps.drop_last()), imps.last());
    }
}

/// Sorting keeps the buckets' imports well formed.
proof fn lemma_sort_buckets_wf(m: SorterModel)
    requires
        buckets_wf(buckets_of(m)),
    ensures
        buckets_wf(buckets_of(sort_model(m))),
{
    let bs = buckets_of(m);
    let m1 = sort_model(m);
    let bs1 = buckets_of(m1);
    assert(bs[0] == m.core && bs[1] == m.third_party);
    assert forall|k: int, j: int| 0 <= k < bs1.len() && 0 <= j < bs1[k].len() implies import_wf(
        #[trigger] bs1[k][j],
    ) by {
        let old_bucket: Seq<ImportModel> = if k == 0 {
            m.core
        } else if k == 1 {
            m.third_party
        } else {
            m.custom[k - 2].1
        };
        if k >= 2 {
            assert(bs1[k] == m1.custom[k - 2].1);
            assert(m1.custom[k - 2] == (m.custom[k - 2].0, sort_by_url(m.custom[k - 2].1)));
            assert(bs[k] == m.custom[k - 2].1);
        }
        assert(bs1[k] == sort_by_url(old_bucket));
        crate::sorter::lemma_sort_contents(old_bucket);
        assert(old_bucket.contains(bs1[k][j]));
        let jj = choose|jj: int| 0 <= jj < old_bucket.len() && old_bucket[jj] == bs1[k][j];
        assert(bs[k][jj] == bs1[k][j]);
    }
}

/// The whole rewrite of one file's lines, as one function: read, then
/// sort, then write.  `None` is the malformed-import failure, on which the
/// file is left untouched.  This is what the executable pipeline computes:
/// `GoFile::read` over a sorter from `ImportSorter::new` ensures the scan
/// and insertion below, `GoFile::sort` ensures `sort_model`, and
/// `GoFile::write_to` ensures `output_of`.
pub open spec fn rewrite(keys: Seq<Seq<char>>, input: Seq<Seq<char>>) -> Option<Seq<Seq<char>>> {
    match scan(input, 0, false) {
        Some(s) => Some(
            output_of(s.retained, sort_model(insert_all(fresh_sorter(keys), s.imports))),
        ),
        None => None,
    }
}

/// Rewriting is idempotent: reading the rewritten file back, sorting and
/// writing again reproduces it line for line.  The one proviso, beyond the
/// first read succeeding: when the file holds any import at all, the
/// import slot must fall inside the retained lines (a file so short that
/// the slot runs off its end gains its import section at the end on the
/// first pass, and the slot of the longer file then differs).
#[verifier::rlimit(100)]
pub proof fn theorem_rewrite_idempotent(keys: Seq<Seq<char>>, input: Seq<Seq<char>>)
    requires
        scan(input, 0, false) is Some,
        total_count(
            sort_model(
                insert_all(fresh_sorter(keys), scan(input, 0, false).unwrap().imports),
            ),
        ) > 0 ==> anchored(scan(input, 0, false).unwrap().retained),
    ensures
        rewrite(keys, input) matches Some(o1) && rewrite(keys, o1) == Some(o1),
{
    let s = scan(input, 0, false).unwrap();
    let r = s.retained;
    let f = fresh_sorter(keys);
    let s1 = insert_all(f, s.imports);
    let m = sort_model(s1);
    let o1 = output_of(r, m);
    lemma_scan_retained_safe(input, 0, false);
    lemma_scan_imports_wf(input, 0, false);
    assert(keys_of(f) =~= keys);
    lemma_insert_all_keys(f, s.imports);
    lemma_sort_keys(s1);
    assert(keys_of(m) == keys);
    assert(well_placed(f));
    lemma_insert_all_well_placed(f, s.imports);
    lemma_sort_well_placed(s1);
    assert(buckets_wf(buckets_of(f))) by {
        assert(forall|k: int| 0 <= k < buckets_of(f).len() ==> #[trigger] buckets_of(
            f,
        )[k].len() == 0);
    }
    lemma_insert_all_buckets_wf(f, s.imports);
    lemma_sort_buckets_wf(s1);
    let bs = buckets_of(m);
    lemma_buckets_count(m);
    crate::sorter::lemma_custom_count_nonneg(m.custom);
    assert(total_count(m) >= 0);
    if total_count(m) == 0 {
        assert(o1 == r);
        lemma_scan_all_retained(r, 0);
        assert(r.skip(0) =~= r);
        assert(insert_all(f, Seq::<ImportModel>::empty()) == f);
        crate::sorter::lemma_count_all_empty(f.custom);
        crate::sorter::lemma_count_sort(f);
        assert(total_count(sort_model(f)) == 0);
        assert(rewrite(keys, o1) == Some(output_of(r, sort_model(f))));
        assert(output_of(r, sort_model(f)) == r);
    } else {
        assert(anchored(r));
        let p = insert_pos(r);
        let q = first_nonblank_from(r, p);
        lemma_find_pos_bounds(r, 0, 2);
        lemma_first_nonblank_props(r, p);
        let sec = import_section(m);
        assert(o1 == r.take(p) + sec + r.skip(q));
        let a_part = r.take(p);
        let c_part = r.skip(q);
        let e = p + sec.len();
        assert(o1.len() == p + sec.len() + c_part.len());
        assert(forall|k: int| 0 <= k < p ==> #[trigger] o1[k] == r[k]);
        assert(forall|j: int| 0 <= j < sec.len() ==> #[trigger] o1[p + j] == sec[j]);
        assert(forall|j: int| 0 <= j < c_part.len() ==> #[trigger] o1[e + j] == r[q + j]);
        assert forall|j: int| e <= j < o1.len() implies match_single_spec(
            #[trigger] o1[j],
        ) is None && !match_begin_spec(o1[j]) by {
            assert(o1[e + (j - e)] == r[q + (j - e)]);
        }
        lemma_scan_all_retained(o1, e);
        assert(o1.skip(e) =~= c_part);
        let x_part: Seq<Seq<char>>;
        let i2: Seq<ImportModel>;
        if total_count(m) == 1 {
            lemma_flat_single(bs, 0);
            let i0 = first_single_from(bs, 0).unwrap();
            crate::sorter::lemma_first_single_exists(bs, 0);
            assert(import_wf(i0)) by {
                let jb = choose|jb: int| 0 <= jb < bs.len() && bs[jb] == seq![i0];
                assert(bs[jb][0] == i0);
            }
            assert(sec == seq![single_line(i0), Seq::<char>::empty()]);
            lemma_single_line_reads_back(i0);
            assert(o1[p + 1] == Seq::<char>::empty());
            lemma_blank_matches_nothing(o1[p + 1]);
            assert(scan(o1, p + 1, false) == Some(
                ScanResult {
                    retained: seq![o1[p + 1]] + c_part,
                    imports: Seq::<ImportModel>::empty(),
                },
            ));
            assert(o1[p + 0] == single_line(i0));
            assert(o1[p] == single_line(i0));
            assert(scan(o1, p, false) == Some(
                ScanResult {
                    retained: seq![Seq::<char>::empty()] + c_part,
                    imports: seq![i0] + Seq::<ImportModel>::empty(),
                },
            ));
            x_part = seq![Seq::<char>::empty()];
            i2 = seq![i0];
            assert(seq![i0] + Seq::<ImportModel>::empty() =~= i2);
            assert(i2 == flat_from(bs, 0));
            assert(scan(o1, p, false) == Some(
                ScanResult { retained: x_part + c_part, imports: i2 },
            ));
        } else {
            assert(total_count(m) >= 2);
            let body = block_lines_from(bs, 0, false);
            assert(sec == seq![import_open_line()] + body + seq![
                import_close_line(),
                Seq::<char>::empty(),
            ]);
            assert(o1[p + 0] == import_open_line());
            assert(forall|j: int| 0 <= j < body.len() ==> #[trigger] o1[p + 1 + j] == sec[1
                + j]);
            assert(forall|j: int| 0 <= j < body.len() ==> #[trigger] sec[1 + j] == body[j]);
            assert(o1[p + 1 + body.len()] == import_close_line());
            assert(o1[p + 2 + body.len()] == Seq::<char>::empty());
            lemma_blank_matches_nothing(o1[p + 2 + body.len()]);
            assert(scan(o1, p + 3 + body.len(), false) == Some(
                ScanResult { retained: c_part, imports: Seq::<ImportModel>::empty() },
            ));
            assert(scan(o1, p + 2 + body.len(), false) == Some(
                ScanResult {
                    retained: seq![Seq::<char>::empty()] + c_part,
                    imports: Seq::<ImportModel>::empty(),
                },
            ));
            lemma_close_line_reads_back();
            assert(scan(o1, p + 1 + body.len(), true) == Some(
                ScanResult {
                    retained: seq![Seq::<char>::empty()] + c_part,
                    imports: Seq::<ImportModel>::empty(),
                },
            ));
            assert forall|j: int| 0 <= j < body.len() implies #[trigger] o1[(p + 1) + j]
                == body[j] by {
                assert(o1[p + 1 + j] == sec[1 + j]);
            }
            lemma_scan_body(o1, p + 1, bs, 0, false);
            assert(scan(o1, p + 1, true) == Some(
                ScanResult {
                    retained: body_blanks(bs, 0, false) + (seq![Seq::<char>::empty()]
                        + c_part),
                    imports: flat_from(bs, 0) + Seq::<ImportModel>::empty(),
                },
            ));
            lemma_open_line_reads_back();
            assert(o1[p] == import_open_line());
            x_part = body_blanks(bs, 0, false) + seq![Seq::<char>::empty()];
            i2 = flat_from(bs, 0);
            assert(flat_from(bs, 0) + Seq::<ImportModel>::empty() =~= i2);
            assert(body_blanks(bs, 0, false) + (seq![Seq::<char>::empty()] + c_part) =~= x_part
                + c_part);
            assert(scan(o1, p, false) == Some(
                ScanResult { retained: x_part + c_part, imports: i2 },
            ));
        }
        assert(forall|j: int| 0 <= j < x_part.len() ==> is_blank(#[trigger] x_part[j])) by {
            lemma_body_blanks_blank(bs, 0, false);
        }
        assert forall|k: int| 0 <= k < p implies match_single_spec(#[trigger] o1[k]) is None
            && !match_begin_spec(o1[k]) by {
            assert(o1[k] == r[k]);
        }
        lemma_scan_prefix(o1, 0, p);
        let r2 = a_part + x_part + c_part;
        assert(o1.subrange(0, p) =~= a_part);
        assert(o1.subrange(0, p) + (x_part + c_part) =~= r2);
        assert(scan(o1, 0, false) == Some(ScanResult { retained: r2, imports: i2 }));
        lemma_reinsert(m);
        assert(fresh_sorter(keys_of(m)) == f);
        assert(insert_all(f, i2) == m);
        lemma_sort_model_fixed(s1);
        assert(sort_model(m) == m);
        assert(rewrite(keys, o1) == Some(output_of(r2, m)));
        assert(r2.len() == p + x_part.len() + c_part.len());
        assert(forall|k: int| 0 <= k < p ==> #[trigger] r2[k] == r[k]);
        assert(forall|j: int| 0 <= j < x_part.len() ==> #[trigger] r2[p + j] == x_part[j]);
        assert(forall|j: int| 0 <= j < c_part.len() ==> #[trigger] r2[p + x_part.len() + j]
            == r[q + j]);
        assert(x_part.len() >= 1);
        assert(is_blank(r2[p + 0]));
        assert(is_blank(r2[p]));
        assert(!is_package_line(r2[p])) by {
            if is_package_line(r2[p]) {
                assert(r2[p].subrange(0, 8) == seq!['p', 'a', 'c', 'k', 'a', 'g', 'e', ' ']);
                assert(r2[p][0] == 'p');
                assert(is_wspace('p'));
            }
        }
        lemma_insert_pos_stable(r, r2, 0, 2);
        assert(insert_pos(r2) == p);
        let xe = p + x_part.len();
        assert forall|j: int| p <= j < xe implies is_blank(#[trigger] r2[j]) by {
            assert(r2[p + (j - p)] == x_part[j - p]);
        }
        assert(xe == r2.len() || !is_blank(r2[xe])) by {
            if xe < r2.len() {
                assert(r2[p + x_part.len() + 0] == r[q + 0]);
                assert(q < r.len());
                assert(!is_blank(r[q]));
            }
        }
        lemma_fnb_run(r2, p, xe);
        assert(output_of(r2, m) == r2.take(p) + sec + r2.skip(xe));
        assert(r2.take(p) =~= a_part);
        assert(r2.skip(xe) =~= c_part);
        assert(output_of(r2, m) == o1);
    }
}

} // verus!
