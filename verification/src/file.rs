//! The source-file engine: reads a file line by line through the matcher,
//! feeds recognized imports to the sorter, retains every other line
//! verbatim, and re-serializes the import block on write.

use vstd::prelude::*;
use vstd::string::{StrSliceExecFns, StringExecFns};
use crate::import::{Import, ImportModel, render_import, views_of};
use crate::matcher::{
    ImportMatcher, match_begin_spec, match_end_spec, match_in_block_spec, match_single_spec,
};
use crate::sorter::{
    buckets_of, first_single_from, insert_model, ImportSorter, sort_model, SorterModel,
    total_count,
};
use crate::text::{is_blank, str_prefix, str_starts_with};

verus! {

/// Reading a file can fail on a structurally broken import block.
#[derive(Debug, Clone, Copy, PartialEq, Eq, Structural)]
pub enum ReadError {
    /// Non-blank content inside a declared import block that is neither an
    /// entry nor the closing parenthesis.
    MalformedImport,
}

/// The lines of a file, as character sequences.
pub open spec fn lines_view(s: Seq<String>) -> Seq<Seq<char>> {
    s.map_values(|l: String| l@)
}

/// What a successful read extracts from a file: the retained non-import
/// lines, in order, and the recognized imports, in encounter order.
pub ghost struct ScanResult {
    pub retained: Seq<Seq<char>>,
    pub imports: Seq<ImportModel>,
}

/// The read state machine, from line `k` in state `inside`.
///
/// Inside an import block the closing parenthesis ends the block, an entry
/// is captured, a blank line is retained, and anything else is malformed
/// (`None`).  Outside, a single-line import is captured, an opening line
/// enters the block, and every other line is retained.  A file that ends
/// while still inside a block is accepted.
pub open spec fn scan(lines: Seq<Seq<char>>, k: int, inside: bool) -> Option<ScanResult>
    decreases lines.len() - k,
{
    if k < 0 || k >= lines.len() {
        Some(ScanResult { retained: Seq::empty(), imports: Seq::empty() })
    } else {
        let l = lines[k];
        if inside {
            if match_end_spec(l) {
                scan(lines, k + 1, false)
            } else if match_in_block_spec(l) is Some {
                match scan(lines, k + 1, true) {
                    Some(r) => Some(
                        ScanResult {
                            retained: r.retained,
                            imports: seq![match_in_block_spec(l).unwrap()] + r.imports,
                        },
                    ),
                    None => None,
                }
            } else if !is_blank(l) {
                None
            } else {
                match scan(lines, k + 1, true) {
                    Some(r) => Some(ScanResult { retained: seq![l] + r.retained, ..r }),
                    None => None,
                }
            }
        } else {
            if match_single_spec(l) is Some {
                match scan(lines, k + 1, false) {
                    Some(r) => Some(
                        ScanResult {
                            retained: r.retained,
                            imports: seq![match_single_spec(l).unwrap()] + r.imports,
                        },
                    ),
                    None => None,
                }
            } else if match_begin_spec(l) {
                scan(lines, k + 1, true)
            } else {
                match scan(lines, k + 1, false) {
                    Some(r) => Some(ScanResult { retained: seq![l] + r.retained, ..r }),
                    None => None,
                }
            }
        }
    }
}

/// The sorter after inserting a stream of imports, in order.
pub open spec fn insert_all(m: SorterModel, imports: Seq<ImportModel>) -> SorterModel
    decreases imports.len(),
{
    if imports.len() == 0 {
        m
    } else {
        insert_model(insert_all(m, imports.drop_last()), imports.last())
    }
}

/// A line that opens the host language's package clause: `package `.
pub open spec fn is_package_line(l: Seq<char>) -> bool {
    str_prefix(seq!['p', 'a', 'c', 'k', 'a', 'g', 'e', ' '], l)
}

/// Where the import section goes: the slot two lines past the most recent
/// package clause (one line is left between the two), two lines into the
/// file when no package clause stands before the slot, and the end of the
/// file when the slot is never reached.
pub open spec fn find_insert_pos(lines: Seq<Seq<char>>, i: int, il: int) -> int
    decreases lines.len() - i,
{
    if i < 0 || i >= lines.len() {
        lines.len() as int
    } else if is_package_line(lines[i]) {
        find_insert_pos(lines, i + 1, i + 2)
    } else if i == il {
        i
    } else {
        find_insert_pos(lines, i + 1, il)
    }
}

/// The scan of [`find_insert_pos`] reached its slot exactly, rather than
/// running off the end of a too-short file.
pub open spec fn insert_pos_hit(lines: Seq<Seq<char>>, i: int, il: int) -> bool
    decreases lines.len() - i,
{
    if i < 0 || i >= lines.len() {
        il == lines.len()
    } else if is_package_line(lines[i]) {
        insert_pos_hit(lines, i + 1, i + 2)
    } else if i == il {
        true
    } else {
        insert_pos_hit(lines, i + 1, il)
    }
}

/// The import-section slot of a file's retained lines.
pub open spec fn insert_pos(lines: Seq<Seq<char>>) -> int {
    find_insert_pos(lines, 0, 2)
}

/// The slot is reached exactly; writing such a file is stable.
pub open spec fn anchored(lines: Seq<Seq<char>>) -> bool {
    insert_pos_hit(lines, 0, 2)
}

/// The first non-blank line at or after `k`, or the end of the file.
pub open spec fn first_nonblank_from(lines: Seq<Seq<char>>, k: int) -> int
    decreases lines.len() - k,
{
    if k < 0 || k >= lines.len() {
        lines.len() as int
    } else if is_blank(lines[k]) {
        first_nonblank_from(lines, k + 1)
    } else {
        k
    }
}

/// A one-line import declaration as the writer emits it.
pub open spec fn single_line(i: ImportModel) -> Seq<char> {
    seq!['i', 'm', 'p', 'o', 'r', 't', ' '] + render_import(i)
}

/// A block entry as the writer emits it.
pub open spec fn entry_line(i: ImportModel) -> Seq<char> {
    seq!['\t'] + render_import(i)
}

/// The opening line of the emitted block.
pub open spec fn import_open_line() -> Seq<char> {
    seq!['i', 'm', 'p', 'o', 'r', 't', ' ', '(']
}

/// The closing line of the emitted block.
pub open spec fn import_close_line() -> Seq<char> {
    seq![')']
}

/// The entry lines of one bucket.
pub open spec fn entries_of(b: Seq<ImportModel>) -> Seq<Seq<char>> {
    b.map_values(|i: ImportModel| entry_line(i))
}

/// The body of the emitted block from bucket `k` on: each non-empty
/// bucket's entries, with one blank line between consecutive non-empty
/// buckets.  `sep` says whether a non-empty bucket was already emitted.
pub open spec fn block_lines_from(bs: Seq<Seq<ImportModel>>, k: int, sep: bool) -> Seq<Seq<char>>
    decreases bs.len() - k,
{
    if k < 0 || k >= bs.len() {
        Seq::empty()
    } else if bs[k].len() == 0 {
        block_lines_from(bs, k + 1, sep)
    } else {
        (if sep {
            seq![Seq::<char>::empty()]
        } else {
            Seq::empty()
        }) + entries_of(bs[k]) + block_lines_from(bs, k + 1, true)
    }
}

/// The whole import section: nothing for zero imports, a one-line
/// declaration plus a blank line for exactly one, and a parenthesized
/// block plus a blank line otherwise.
pub open spec fn import_section(m: SorterModel) -> Seq<Seq<char>> {
    let t = total_count(m);
    if t == 0 {
        Seq::empty()
    } else if t == 1 {
        seq![single_line(first_single_from(buckets_of(m), 0).unwrap()), Seq::<char>::empty()]
    } else {
        seq![import_open_line()] + block_lines_from(buckets_of(m), 0, false) + seq![
            import_close_line(),
            Seq::<char>::empty(),
        ]
    }
}

/// The rewritten file: the retained lines up to the import slot, the import
/// section, then the remaining retained lines with the blank run right
/// after the section dropped.  A file with no imports is emitted verbatim.
pub open spec fn output_of(lines: Seq<Seq<char>>, m: SorterModel) -> Seq<Seq<char>> {
    if total_count(m) == 0 {
        lines
    } else {
        let p = insert_pos(lines);
        lines.take(p) + import_section(m) + lines.skip(first_nonblank_from(lines, p))
    }
}

/// The mathematical value of a [`GoFile`].
pub ghost struct GoFileModel {
    pub path: Seq<char>,
    pub lines: Seq<Seq<char>>,
    pub sorter: SorterModel,
}

/// One source file mid-rewrite: its path, its retained non-import lines,
/// and the sorter holding its imports.
pub struct GoFile {
    path: String,
    lines: Vec<String>,
    is: ImportSorter,
}

impl View for GoFile {
    type V = GoFileModel;

    closed spec fn view(&self) -> GoFileModel {
        GoFileModel { path: self.path@, lines: lines_view(self.lines@), sorter: self.is@ }
    }
}

impl GoFile {
    /// A file with no retained lines yet.
    pub fn new(is: ImportSorter, path: String) -> (r: GoFile)
        ensures
            r@.path == path@,
            r@.lines == Seq::<Seq<char>>::empty(),
            r@.sorter == is@,
    {
        let r = GoFile { path, lines: Vec::new(), is };
        proof {
            assert(lines_view(r.lines@) =~= Seq::<Seq<char>>::empty());
        }
        r
    }

    /// Retains one line verbatim.
    pub fn add_line(&mut self, line: String)
        ensures
            final(self)@.lines == old(self)@.lines.push(line@),
            final(self)@.path == old(self)@.path,
            final(self)@.sorter == old(self)@.sorter,
    {
        let ghost l0 = self.lines@;
        self.lines.push(line);
        proof {
            assert(lines_view(self.lines@) =~= lines_view(l0).push(self.lines@.last()@));
        }
    }

    /// Hands one recognized import to the sorter.
    pub fn add_import(&mut self, i: Import)
        ensures
            final(self)@.sorter == insert_model(old(self)@.sorter, i@),
            total_count(final(self)@.sorter) == total_count(old(self)@.sorter) + 1,
            final(self)@.path == old(self)@.path,
            final(self)@.lines == old(self)@.lines,
    {
        self.is.insert(i);
    }

    /// Sorts every bucket of the sorter in place.
    pub fn sort(&mut self)
        ensures
            final(self)@.sorter == sort_model(old(self)@.sorter),
            total_count(final(self)@.sorter) == total_count(old(self)@.sorter),
            final(self)@.path == old(self)@.path,
            final(self)@.lines == old(self)@.lines,
    {
        self.is.sort();
    }

    /// The retained non-import lines, in original order.
    pub fn lines(&self) -> (r: &Vec<String>)
        ensures
            lines_view(r@) == self@.lines,
    {
        &self.lines
    }

    /// Runs the read state machine over the lines of a file.
    ///
    /// On success the returned file retains every non-import line (plus the
    /// blank lines found inside import blocks) and its sorter has taken
    /// every recognized import, in encounter order.  The read fails exactly
    /// when a non-blank line inside an import block is neither an entry nor
    /// the closing parenthesis; a file ending inside a block is accepted.
    pub fn read(
        is: ImportSorter,
        import_matcher: &ImportMatcher,
        path: &str,
        input: &Vec<String>,
    ) -> (r: Result<GoFile, ReadError>)
        ensures
            match r {
                Ok(gf) => scan(lines_view(input@), 0, false) matches Some(s) && gf@.lines
                    == s.retained && gf@.sorter == insert_all(is@, s.imports) && gf@.path == path@
                    && total_count(gf@.sorter) <= total_count(is@) + input@.len(),
                Err(_) => scan(lines_view(input@), 0, false) is None,
            },
    {
        let ghost lv = lines_view(input@);
        let ghost is0 = is@;
        let mut gf = GoFile::new(is, path.to_owned());
        let mut inside = false;
        let ghost mut imps: Seq<ImportModel> = Seq::empty();
        let n = input.len();
        let mut k: usize = 0;
        proof {
            assert(insert_all(is0, imps) == is0);
        }
        while k < n
            invariant
                k <= n,
                n == lv.len(),
                lv == lines_view(input@),
                gf@.path == path@,
                gf@.sorter == insert_all(is0, imps),
                total_count(gf@.sorter) <= total_count(is0) + k,
                imps.len() <= k,
                match scan(lv, k as int, inside) {
                    Some(rest) => scan(lv, 0, false) == Some(
                        ScanResult {
                            retained: gf@.lines + rest.retained,
                            imports: imps + rest.imports,
                        },
                    ),
                    None => scan(lv, 0, false) is None,
                },
            decreases n - k,
        {
            let line = &input[k];
            proof {
                assert(lv[k as int] == line@);
            }
            if inside {
                if import_matcher.match_import_end(line.as_str()) {
                    inside = false;
                    k = k + 1;
                    continue ;
                }
                if let Some(i) = import_matcher.match_in_block(line.as_str()) {
                    proof {
                        lemma_insert_all_push(is0, imps, i@);
                        step_in_block(lv, k as int, gf@.lines, imps, i@);
                    }
                    gf.add_import(i);
                    proof {
                        imps = imps.push(i@);
                    }
                    k = k + 1;
                    continue ;
                }
                if !crate::text::blank_line(line.as_str()) {
                    proof {
                        assert(scan(lv, k as int, true) is None);
                    }
                    return Err(ReadError::MalformedImport);
                }
                proof {
                    step_retain_inside(lv, k as int, gf@.lines, imps);
                }
                gf.add_line(line.clone());
                k = k + 1;
                continue ;
            }
            if let Some(i) = import_matcher.match_single(line.as_str()) {
                proof {
                    lemma_insert_all_push(is0, imps, i@);
                    step_single(lv, k as int, gf@.lines, imps, i@);
                }
                gf.add_import(i);
                proof {
                    imps = imps.push(i@);
                }
                k = k + 1;
                continue ;
            }
            if import_matcher.match_import_begin(line.as_str()) {
                inside = true;
                k = k + 1;
                continue ;
            }
            proof {
                step_retain_outside(lv, k as int, gf@.lines, imps);
            }
            gf.add_line(line.clone());
            k = k + 1;
        }
        proof {
            assert(scan(lv, n as int, inside) == Some(
                ScanResult {
                    retained: Seq::<Seq<char>>::empty(),
                    imports: Seq::<ImportModel>::empty(),
                },
            ));
            assert(gf@.lines + Seq::<Seq<char>>::empty() =~= gf@.lines);
            assert(imps + Seq::<ImportModel>::empty() =~= imps);
        }
        Ok(gf)
    }
}

impl GoFile {
    /// Serializes the rewritten file as its sequence of lines; the caller
    /// terminates each with a newline when writing to disk.
    ///
    /// The retained lines are emitted verbatim up to the import slot, the
    /// import section follows (nothing for zero imports, one line plus a
    /// blank for exactly one, a parenthesized block plus a blank otherwise,
    /// with one blank line between consecutive non-empty buckets), and the
    /// remaining retained lines follow with the blank run right after the
    /// section dropped.
    pub fn write_to(&self) -> (out: Vec<String>)
        requires
            total_count(self@.sorter) <= usize::MAX,
        ensures
            lines_view(out@) == output_of(self@.lines, self@.sorter),
    {
        let ghost lv = self@.lines;
        let ghost m = self@.sorter;
        let total = self.is.imports_count();
        let mut out: Vec<String> = Vec::new();
        proof {
            assert(lines_view(out@) =~= Seq::<Seq<char>>::empty());
        }
        if total == 0 {
            let n = self.lines.len();
            append_lines(&mut out, &self.lines, 0, n);
            proof {
                assert(lv.subrange(0, n as int) =~= lv);
                assert(Seq::<Seq<char>>::empty() + lv =~= lv);
            }
            return out;
        }
        let p = find_pos(&self.lines);
        append_lines(&mut out, &self.lines, 0, p);
        proof {
            assert(Seq::<Seq<char>>::empty() + lv.subrange(0, p as int) =~= lv.take(p as int));
        }
        if total == 1 {
            proof {
                crate::sorter::lemma_buckets_count(m);
                crate::sorter::lemma_first_single_exists(buckets_of(m), 0);
            }
            match self.is.get_single_count() {
                Some(i) => {
                    let mut line = String::new();
                    line.append("import ");
                    line.append(i.render().as_str());
                    proof {
                        reveal_strlit("import ");
                        assert("import "@ =~= seq!['i', 'm', 'p', 'o', 'r', 't', ' ']);
                        assert(line@ == single_line(i@));
                    }
                    push_line(&mut out, line);
                    push_line(&mut out, String::new());
                    proof {
                        assert(lines_view(out@) =~= lv.take(p as int) + import_section(m));
                    }
                },
                None => {
                    proof {
                        assert(false);
                    }
                    return out;
                },
            }
        } else {
            let ghost bs = buckets_of(m);
            push_line(&mut out, String::from_str("import ("));
            proof {
                reveal_strlit("import (");
                assert("import ("@ =~= import_open_line());
                assert(lines_view(out@) =~= lv.take(p as int) + seq![import_open_line()]);
            }
            let buckets = self.is.iter();
            proof {
                assert(bs.len() == buckets@.len());
                assert forall|k: int| 0 <= k < bs.len() implies views_of(
                    #[trigger] buckets@[k]@,
                ) == bs[k] by {
                    if k == 0 {
                        assert(bs[0] == m.core);
                    } else if k == 1 {
                        assert(bs[1] == m.third_party);
                    } else {
                        let j = k - 2;
                        assert(views_of(buckets@[2 + j]@) == m.custom[j].1);
                        assert(bs[2 + j] == m.custom[j].1);
                    }
                }
            }
            let nb = buckets.len();
            let mut kb: usize = 0;
            let mut sep = false;
            let ghost mut acc: Seq<Seq<char>> = Seq::empty();
            proof {
                assert(Seq::<Seq<char>>::empty() + acc =~= acc);
                assert(lines_view(out@) =~= lv.take(p as int) + seq![import_open_line()] + acc);
            }
            while kb < nb
                invariant
                    kb <= nb,
                    nb == bs.len(),
                    bs.len() == buckets@.len(),
                    forall|k: int| 0 <= k < bs.len() ==> views_of(#[trigger] buckets@[k]@)
                        == bs[k],
                    lines_view(out@) == lv.take(p as int) + seq![import_open_line()] + acc,
                    block_lines_from(bs, 0, false) == acc + block_lines_from(
                        bs,
                        kb as int,
                        sep,
                    ),
                decreases nb - kb,
            {
                let b: &Vec<Import> = buckets[kb];
                proof {
                    assert(views_of(b@) == bs[kb as int]);
                    assert(b@.len() == bs[kb as int].len());
                }
                if b.len() > 0 {
                    if sep {
                        push_line(&mut out, String::new());
                        proof {
                            acc = acc.push(Seq::<char>::empty());
                            assert(lines_view(out@) =~= lv.take(p as int) + seq![
                                import_open_line(),
                            ] + acc);
                        }
                    }
                    let ne = b.len();
                    let mut je: usize = 0;
                    while je < ne
                        invariant
                            je <= ne,
                            ne == b@.len(),
                            views_of(b@) == bs[kb as int],
                            kb < bs.len(),
                            lines_view(out@) == lv.take(p as int) + seq![import_open_line()]
                                + acc + entries_of(bs[kb as int]).take(je as int),
                        decreases ne - je,
                    {
                        let mut line = String::new();
                        line.append("\t");
                        line.append(b[je].render().as_str());
                        proof {
                            reveal_strlit("\t");
                            assert("\t"@ =~= seq!['\t']);
                            assert(b@[je as int]@ == bs[kb as int][je as int]);
                            assert(line@ == entry_line(bs[kb as int][je as int]));
                            assert(entries_of(bs[kb as int])[je as int] == entry_line(
                                bs[kb as int][je as int],
                            ));
                        }
                        push_line(&mut out, line);
                        proof {
                            assert(entries_of(bs[kb as int]).take(je + 1) =~= entries_of(
                                bs[kb as int],
                            ).take(je as int).push(line@));
                            assert(lines_view(out@) =~= lv.take(p as int) + seq![
                                import_open_line(),
                            ] + acc + entries_of(bs[kb as int]).take(je + 1));
                        }
                        je = je + 1;
                    }
                    proof {
                        assert(entries_of(bs[kb as int]).take(ne as int) =~= entries_of(
                            bs[kb as int],
                        ));
                        let sep0 = sep;
                        let acc0 = if sep0 {
                            acc.drop_last()
                        } else {
                            acc
                        };
                        assert(block_lines_from(bs, kb as int, sep0) == (if sep0 {
                            seq![Seq::<char>::empty()]
                        } else {
                            Seq::<Seq<char>>::empty()
                        }) + entries_of(bs[kb as int]) + block_lines_from(bs, kb + 1, true));
                        acc = acc + entries_of(bs[kb as int]);
                        assert(block_lines_from(bs, 0, false) =~= acc + block_lines_from(
                            bs,
                            kb + 1,
                            true,
                        )) by {
                            if sep0 {
                                assert(acc0.push(Seq::<char>::empty()) + entries_of(
                                    bs[kb as int],
                                ) =~= acc0 + (seq![Seq::<char>::empty()] + entries_of(
                                    bs[kb as int],
                                )));
                            }
                        }
                        assert(lines_view(out@) =~= lv.take(p as int) + seq![import_open_line()]
                            + acc);
                    }
                    sep = true;
                } else {
                    proof {
                        assert(block_lines_from(bs, kb as int, sep) == block_lines_from(
                            bs,
                            kb + 1,
                            sep,
                        ));
                    }
                }
                kb = kb + 1;
            }
            push_line(&mut out, String::from_str(")"));
            push_line(&mut out, String::new());
            proof {
                reveal_strlit(")");
                assert(")"@ =~= import_close_line());
                assert(block_lines_from(bs, nb as int, sep) == Seq::<Seq<char>>::empty());
                assert(acc + Seq::<Seq<char>>::empty() =~= acc);
                assert(block_lines_from(bs, 0, false) == acc);
                assert(import_section(m) == seq![import_open_line()] + acc + seq![
                    import_close_line(),
                    Seq::<char>::empty(),
                ]);
                assert(lines_view(out@) =~= lv.take(p as int) + import_section(m));
            }
        }
        let n = self.lines.len();
        let mut q = p;
        while q < n && crate::text::blank_line(self.lines[q].as_str())
            invariant
                p <= q <= n,
                n == lv.len(),
                lv == self@.lines,
                first_nonblank_from(lv, p as int) == first_nonblank_from(lv, q as int),
            decreases n - q,
        {
            proof {
                assert(lv[q as int] == self.lines@[q as int]@);
            }
            q = q + 1;
        }
        proof {
            if q < n {
                assert(lv[q as int] == self.lines@[q as int]@);
            }
            assert(first_nonblank_from(lv, p as int) == q);
        }
        append_lines(&mut out, &self.lines, q, n);
        proof {
            assert(lv.subrange(q as int, n as int) =~= lv.skip(q as int));
            assert(lines_view(out@) =~= output_of(lv, m));
        }
        out
    }
}

/// Pushes one line, extending the view by its text.
fn push_line(out: &mut Vec<String>, s: String)
    ensures
        lines_view(final(out)@) == lines_view(old(out)@).push(s@),
{
    let ghost l0 = out@;
    out.push(s);
    proof {
        assert(lines_view(out@) =~= lines_view(l0).push(out@.last()@));
    }
}

/// Appends copies of `src[from..to]`.
fn append_lines(out: &mut Vec<String>, src: &Vec<String>, from: usize, to: usize)
    requires
        from <= to <= src@.len(),
    ensures
        lines_view(final(out)@) == lines_view(old(out)@) + lines_view(src@).subrange(
            from as int,
            to as int,
        ),
{
    let ghost base = lines_view(out@);
    let ghost sv = lines_view(src@);
    let mut k = from;
    proof {
        assert(base + sv.subrange(from as int, from as int) =~= base);
    }
    while k < to
        invariant
            from <= k <= to,
            to <= src@.len(),
            sv == lines_view(src@),
            base == lines_view(old(out)@),
            lines_view(out@) == base + sv.subrange(from as int, k as int),
        decreases to - k,
    {
        proof {
            assert(sv[k as int] == src@[k as int]@);
        }
        push_line(out, src[k].clone());
        proof {
            assert(lines_view(out@) =~= base + sv.subrange(from as int, k + 1));
        }
        k = k + 1;
    }
}

/// Exec counterpart of [`insert_pos`].
fn find_pos(lines: &Vec<String>) -> (r: usize)
    ensures
        r == insert_pos(lines_view(lines@)),
        r <= lines@.len(),
{
    let ghost lv = lines_view(lines@);
    let n = lines.len();
    let mut i: usize = 0;
    let mut il: u128 = 2;
    while i < n
        invariant
            i <= n,
            n == lv.len(),
            lv == lines_view(lines@),
            il <= n as u128 + 2,
            insert_pos(lv) == find_insert_pos(lv, i as int, il as int),
        decreases n - i,
    {
        proof {
            reveal_strlit("package ");
            assert("package "@ =~= seq!['p', 'a', 'c', 'k', 'a', 'g', 'e', ' ']);
            assert(lv[i as int] == lines@[i as int]@);
        }
        if str_starts_with(lines[i].as_str(), "package ") {
            il = (i as u128) + 2;
        } else if (i as u128) == il {
            return i;
        }
        i = i + 1;
    }
    n
}

/// One step of the read invariant: capturing a block entry prepends it to
/// the imports of the rest of the scan.
proof fn step_in_block(
    lv: Seq<Seq<char>>,
    k: int,
    acc_lines: Seq<Seq<char>>,
    imps: Seq<ImportModel>,
    i: ImportModel,
)
    requires
        0 <= k < lv.len(),
        match_in_block_spec(lv[k]) == Some(i),
        !match_end_spec(lv[k]),
        match scan(lv, k, true) {
            Some(rest) => scan(lv, 0, false) == Some(
                ScanResult { retained: acc_lines + rest.retained, imports: imps + rest.imports },
            ),
            None => scan(lv, 0, false) is None,
        },
    ensures
        match scan(lv, k + 1, true) {
            Some(rest) => scan(lv, 0, false) == Some(
                ScanResult {
                    retained: acc_lines + rest.retained,
                    imports: imps.push(i) + rest.imports,
                },
            ),
            None => scan(lv, 0, false) is None,
        },
{
    match scan(lv, k + 1, true) {
        Some(r1) => {
            assert(scan(lv, k, true) == Some(
                ScanResult { retained: r1.retained, imports: seq![i] + r1.imports },
            ));
            assert(imps + (seq![i] + r1.imports) =~= imps.push(i) + r1.imports);
        },
        None => {
            assert(scan(lv, k, true) is None);
        },
    }
}

/// One step of the read invariant: a blank line inside a block is retained.
proof fn step_retain_inside(
    lv: Seq<Seq<char>>,
    k: int,
    acc_lines: Seq<Seq<char>>,
    imps: Seq<ImportModel>,
)
    requires
        0 <= k < lv.len(),
        is_blank(lv[k]),
        !match_end_spec(lv[k]),
        match_in_block_spec(lv[k]) is None,
        match scan(lv, k, true) {
            Some(rest) => scan(lv, 0, false) == Some(
                ScanResult { retained: acc_lines + rest.retained, imports: imps + rest.imports },
            ),
            None => scan(lv, 0, false) is None,
        },
    ensures
        match scan(lv, k + 1, true) {
            Some(rest) => scan(lv, 0, false) == Some(
                ScanResult {
                    retained: acc_lines.push(lv[k]) + rest.retained,
                    imports: imps + rest.imports,
                },
            ),
            None => scan(lv, 0, false) is None,
        },
{
    match scan(lv, k + 1, true) {
        Some(r1) => {
            assert(scan(lv, k, true) == Some(
                ScanResult { retained: seq![lv[k]] + r1.retained, imports: r1.imports },
            ));
            assert(acc_lines + (seq![lv[k]] + r1.retained) =~= acc_lines.push(lv[k])
                + r1.retained);
        },
        None => {
            assert(scan(lv, k, true) is None);
        },
    }
}

/// One step of the read invariant: a single-line import is captured.
proof fn step_single(
    lv: Seq<Seq<char>>,
    k: int,
    acc_lines: Seq<Seq<char>>,
    imps: Seq<ImportModel>,
    i: ImportModel,
)
    requires
        0 <= k < lv.len(),
        match_single_spec(lv[k]) == Some(i),
        match scan(lv, k, false) {
            Some(rest) => scan(lv, 0, false) == Some(
                ScanResult { retained: acc_lines + rest.retained, imports: imps + rest.imports },
            ),
            None => scan(lv, 0, false) is None,
        },
    ensures
        match scan(lv, k + 1, false) {
            Some(rest) => scan(lv, 0, false) == Some(
                ScanResult {
                    retained: acc_lines + rest.retained,
                    imports: imps.push(i) + rest.imports,
                },
            ),
            None => scan(lv, 0, false) is None,
        },
{
    match scan(lv, k + 1, false) {
        Some(r1) => {
            assert(scan(lv, k, false) == Some(
                ScanResult { retained: r1.retained, imports: seq![i] + r1.imports },
            ));
            assert(imps + (seq![i] + r1.imports) =~= imps.push(i) + r1.imports);
        },
        None => {
            assert(scan(lv, k, false) is None);
        },
    }
}

/// One step of the read invariant: an unrecognized line outside a block is
/// retained.
proof fn step_retain_outside(
    lv: Seq<Seq<char>>,
    k: int,
    acc_lines: Seq<Seq<char>>,
    imps: Seq<ImportModel>,
)
    requires
        0 <= k < lv.len(),
        match_single_spec(lv[k]) is None,
        !match_begin_spec(lv[k]),
        match scan(lv, k, false) {
            Some(rest) => scan(lv, 0, false) == Some(
                ScanResult { retained: acc_lines + rest.retained, imports: imps + rest.imports },
            ),
            None => scan(lv, 0, false) is None,
        },
    ensures
        match scan(lv, k + 1, false) {
            Some(rest) => scan(lv, 0, false) == Some(
                ScanResult {
                    retained: acc_lines.push(lv[k]) + rest.retained,
                    imports: imps + rest.imports,
                },
            ),
            None => scan(lv, 0, false) is None,
        },
{
    match scan(lv, k + 1, false) {
        Some(r1) => {
            assert(scan(lv, k, false) == Some(
                ScanResult { retained: seq![lv[k]] + r1.retained, imports: r1.imports },
            ));
            assert(acc_lines + (seq![lv[k]] + r1.retained) =~= acc_lines.push(lv[k])
                + r1.retained);
        },
        None => {
            assert(scan(lv, k, false) is None);
        },
    }
}

/// Appending one import to the stream inserts it last.
proof fn lemma_insert_all_push(m: SorterModel, imps: Seq<ImportModel>, i: ImportModel)
    ensures
        insert_all(m, imps.push(i)) == insert_model(insert_all(m, imps), i),
{
    assert(imps.push(i).drop_last() =~= imps);
    assert(imps.push(i).last() == i);
}

} // verus!
