//! The import matcher: four stateless predicates over a single line of text.
//!
//! A line can be a one-line import declaration, an entry inside a
//! parenthesized import block, the opening of such a block, or its closing
//! parenthesis.  Each test is anchored at both ends of the line and tolerates
//! leading and trailing whitespace.

use vstd::prelude::*;
use vstd::string::StrSliceExecFns;
use crate::import::{Import, ImportModel, import_wf};
use crate::text::{
    is_blank, is_name_char, is_wspace, last_nonws, lemma_last_nonws, lemma_name_end,
    lemma_ws_end, last_nonws_at, name_end, name_end_at, ws_end, ws_end_at,
};

verus! {

/// The word `import` stands at position `i` of the line.
pub open spec fn has_import_at(l: Seq<char>, i: int) -> bool {
    &&& 0 <= i
    &&& i + 6 <= l.len()
    &&& l[i] == 'i'
    &&& l[i + 1] == 'm'
    &&& l[i + 2] == 'p'
    &&& l[i + 3] == 'o'
    &&& l[i + 4] == 'r'
    &&& l[i + 5] == 't'
}

/// The tail of a quoted path beginning at `k1`: the character there must be
/// a double quote, the last non-whitespace character of the line must be a
/// closing double quote, and at least one character must stand between the
/// two.  `name` is the identifier captured earlier on the line; an empty
/// capture is normalized to an absent name.
pub open spec fn parse_quoted(l: Seq<char>, k1: int, name: Seq<char>) -> Option<ImportModel> {
    let t = last_nonws(l);
    if 0 <= k1 < l.len() && l[k1] == '"' && t >= k1 + 2 && l[t] == '"' {
        Some(ImportModel {
            name: if name.len() == 0 {
                None
            } else {
                Some(name)
            },
            url: l.subrange(k1 + 1, t),
        })
    } else {
        None
    }
}

/// A one-line import declaration: `import [name] "path"`.
pub open spec fn match_single_spec(l: Seq<char>) -> Option<ImportModel> {
    let i0 = ws_end(l, 0);
    if !has_import_at(l, i0) {
        None
    } else {
        let j1 = ws_end(l, i0 + 6);
        if j1 == i0 + 6 {
            None
        } else {
            let k = name_end(l, j1);
            parse_quoted(l, ws_end(l, k), l.subrange(j1, k))
        }
    }
}

/// An entry inside a parenthesized import block: `[name] "path"`.
pub open spec fn match_in_block_spec(l: Seq<char>) -> Option<ImportModel> {
    let i0 = ws_end(l, 0);
    let k = name_end(l, i0);
    parse_quoted(l, ws_end(l, k), l.subrange(i0, k))
}

/// The opening line of a block import: `import (`.
pub open spec fn match_begin_spec(l: Seq<char>) -> bool {
    let i0 = ws_end(l, 0);
    &&& has_import_at(l, i0)
    &&& ws_end(l, i0 + 6) > i0 + 6
    &&& ws_end(l, i0 + 6) < l.len()
    &&& l[ws_end(l, i0 + 6)] == '('
    &&& ws_end(l, ws_end(l, i0 + 6) + 1) == l.len()
}

/// A line holding only a closing parenthesis.
pub open spec fn match_end_spec(l: Seq<char>) -> bool {
    let i0 = ws_end(l, 0);
    &&& i0 < l.len()
    &&& l[i0] == ')'
    &&& ws_end(l, i0 + 1) == l.len()
}

/// Whatever the matcher captures is well formed.
pub proof fn lemma_captured_wf(l: Seq<char>)
    ensures
        match_single_spec(l) matches Some(i) ==> import_wf(i),
        match_in_block_spec(l) matches Some(i) ==> import_wf(i),
{
    lemma_ws_end(l, 0);
    let i0 = ws_end(l, 0);
    lemma_last_nonws(l);
    if has_import_at(l, i0) && i0 + 6 <= l.len() {
        lemma_ws_end(l, i0 + 6);
        let j1 = ws_end(l, i0 + 6);
        lemma_name_end(l, j1);
        lemma_ws_end(l, name_end(l, j1));
    }
    lemma_name_end(l, i0);
    lemma_ws_end(l, name_end(l, i0));
}

/// A blank line is not an import construct: none of the four patterns
/// matches it.
pub proof fn lemma_blank_matches_nothing(l: Seq<char>)
    requires
        is_blank(l),
    ensures
        match_single_spec(l) is None,
        match_in_block_spec(l) is None,
        !match_begin_spec(l),
        !match_end_spec(l),
{
    lemma_ws_end(l, 0);
    assert(ws_end(l, 0) == l.len());
    lemma_name_end(l, l.len() as int);
    lemma_ws_end(l, l.len() as int);
}

/// The stateless line classifier.  It holds no state of its own; it exists
/// so that the reader, the sorter and the file engine share one entity that
/// owns the recognition rules.
pub struct ImportMatcher {}

impl ImportMatcher {
    /// A fresh matcher.
    pub fn new() -> (r: ImportMatcher) {
        ImportMatcher {  }
    }

    /// Recognizes `import [name] "path"`, anchored to the whole line.
    pub fn match_single(&self, s: &str) -> (r: Option<Import>)
        ensures
            match r {
                Some(i) => match_single_spec(s@) == Some(i@),
                None => match_single_spec(s@) is None,
            },
    {
        proof {
            lemma_ws_end(s@, 0);
        }
        let i0 = ws_end_at(s, 0);
        if !word_import_at(s, i0) {
            return None;
        }
        let n = s.unicode_len();
        proof {
            assert(i0 + 6 <= n);
            lemma_ws_end(s@, i0 + 6);
        }
        let j1 = ws_end_at(s, i0 + 6);
        if j1 == i0 + 6 {
            return None;
        }
        proof {
            lemma_name_end(s@, j1 as int);
        }
        let k = name_end_at(s, j1);
        finish_quoted(s, k, j1, k)
    }

    /// Recognizes `[name] "path"`, the shape of one block entry.
    pub fn match_in_block(&self, s: &str) -> (r: Option<Import>)
        ensures
            match r {
                Some(i) => match_in_block_spec(s@) == Some(i@),
                None => match_in_block_spec(s@) is None,
            },
    {
        proof {
            lemma_ws_end(s@, 0);
        }
        let i0 = ws_end_at(s, 0);
        proof {
            lemma_name_end(s@, i0 as int);
        }
        let k = name_end_at(s, i0);
        finish_quoted(s, k, i0, k)
    }

    /// Recognizes the opening line of a block import, `import (`.
    pub fn match_import_begin(&self, s: &str) -> (r: bool)
        ensures
            r == match_begin_spec(s@),
    {
        let n = s.unicode_len();
        proof {
            lemma_ws_end(s@, 0);
        }
        let i0 = ws_end_at(s, 0);
        if !word_import_at(s, i0) {
            return false;
        }
        proof {
            lemma_ws_end(s@, i0 + 6);
        }
        let j1 = ws_end_at(s, i0 + 6);
        if j1 == i0 + 6 || j1 >= n || s.get_char(j1) != '(' {
            return false;
        }
        proof {
            lemma_ws_end(s@, j1 + 1);
        }
        ws_end_at(s, j1 + 1) == n
    }

    /// Recognizes a line holding only a closing parenthesis.
    pub fn match_import_end(&self, s: &str) -> (r: bool)
        ensures
            r == match_end_spec(s@),
    {
        let n = s.unicode_len();
        proof {
            lemma_ws_end(s@, 0);
        }
        let i0 = ws_end_at(s, 0);
        if i0 >= n || s.get_char(i0) != ')' {
            return false;
        }
        proof {
            lemma_ws_end(s@, i0 + 1);
        }
        ws_end_at(s, i0 + 1) == n
    }
}

/// The word `import` stands at position `i` of the line.
fn word_import_at(s: &str, i: usize) -> (r: bool)
    requires
        i <= s@.len(),
    ensures
        r == has_import_at(s@, i as int),
{
    let n = s.unicode_len();
    if i > n || n - i < 6 {
        return false;
    }
    s.get_char(i) == 'i' && s.get_char(i + 1) == 'm' && s.get_char(i + 2) == 'p' && s.get_char(
        i + 3,
    ) == 'o' && s.get_char(i + 4) == 'r' && s.get_char(i + 5) == 't'
}

/// Scans the quoted-path tail beginning at the whitespace run that starts
/// at `k`, capturing the identifier `s[nb..ne]` seen earlier on the line.
fn finish_quoted(s: &str, k: usize, nb: usize, ne: usize) -> (r: Option<Import>)
    requires
        nb <= ne <= s@.len(),
        k <= s@.len(),
    ensures
        match r {
            Some(i) => parse_quoted(s@, ws_end(s@, k as int), s@.subrange(nb as int, ne as int))
                == Some(i@),
            None => parse_quoted(s@, ws_end(s@, k as int), s@.subrange(nb as int, ne as int))
                is None,
        },
{
    let n = s.unicode_len();
    proof {
        lemma_ws_end(s@, k as int);
        lemma_last_nonws(s@);
    }
    let k1 = ws_end_at(s, k);
    if k1 >= n || s.get_char(k1) != '"' {
        return None;
    }
    let t = match last_nonws_at(s) {
        Some(t) => t,
        None => {
            return None;
        },
    };
    if (t as u128) < (k1 as u128) + 2 || s.get_char(t) != '"' {
        return None;
    }
    let url = s.substring_char(k1 + 1, t).to_owned();
    let name = if ne > nb {
        Some(s.substring_char(nb, ne).to_owned())
    } else {
        None
    };
    Some(Import { name, url })
}

} // verus!
