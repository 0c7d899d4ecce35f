//! Character classes and line-scanning helpers shared by the matcher,
//! the sorter and the writer.

use vstd::prelude::*;
use vstd::string::StrSliceExecFns;

verus! {

/// Whitespace as the line patterns tolerate it: the characters with the
/// Unicode White_Space property, the set `char::is_whitespace` (and so
/// `str::trim`) recognizes.
pub open spec fn is_wspace(c: char) -> bool {
    let u = c as u32;
    (9 <= u && u <= 13)  // tab, line feed, vertical tab, form feed, carriage return
    || u == 32  // space
    || u == 0x85  // next line
    || u == 0xA0  // no-break space
    || u == 0x1680  // ogham space mark
    || (0x2000 <= u && u <= 0x200A)  // en quad .. hair space
    || u == 0x2028  // line separator
    || u == 0x2029  // paragraph separator
    || u == 0x202F  // narrow no-break space
    || u == 0x205F  // medium mathematical space
    || u == 0x3000  // ideographic space
}

/// A character allowed in the bound name of an import:
/// ASCII letters, digits, `-` and `_`.
pub open spec fn is_name_char(c: char) -> bool {
    (97 <= c as u32 && c as u32 <= 122)  // 'a'..'z'
    || (65 <= c as u32 && c as u32 <= 90)  // 'A'..'Z'
    || (48 <= c as u32 && c as u32 <= 57)  // '0'..'9'
    || c == '-' || c == '_'
}

/// A line is blank when every character on it is whitespace.
pub open spec fn is_blank(l: Seq<char>) -> bool {
    forall|i: int| 0 <= i < l.len() ==> is_wspace(l[i])
}

/// The end of the whitespace run starting at `i`: the first position at or
/// after `i` holding a non-whitespace character, or the end of the line.
pub open spec fn ws_end(l: Seq<char>, i: int) -> int
    decreases l.len() - i,
{
    if i < 0 || i >= l.len() {
        i
    } else if is_wspace(l[i]) {
        ws_end(l, i + 1)
    } else {
        i
    }
}

/// The end of the name-character run starting at `i`.
pub open spec fn name_end(l: Seq<char>, i: int) -> int
    decreases l.len() - i,
{
    if i < 0 || i >= l.len() {
        i
    } else if is_name_char(l[i]) {
        name_end(l, i + 1)
    } else {
        i
    }
}

/// The position of the last non-whitespace character of the line,
/// or `-1` when the line is blank.
pub open spec fn last_nonws(l: Seq<char>) -> int
    decreases l.len(),
{
    if l.len() == 0 {
        -1
    } else if !is_wspace(l.last()) {
        l.len() - 1
    } else {
        last_nonws(l.drop_last())
    }
}

pub proof fn lemma_ws_end(l: Seq<char>, i: int)
    requires
        0 <= i <= l.len(),
    ensures
        i <= ws_end(l, i) <= l.len(),
        forall|j: int| i <= j < ws_end(l, i) ==> is_wspace(l[j]),
        ws_end(l, i) < l.len() ==> !is_wspace(l[ws_end(l, i)]),
    decreases l.len() - i,
{
    if i < l.len() && is_wspace(l[i]) {
        lemma_ws_end(l, i + 1);
    }
}

pub proof fn lemma_name_end(l: Seq<char>, i: int)
    requires
        0 <= i <= l.len(),
    ensures
        i <= name_end(l, i) <= l.len(),
        forall|j: int| i <= j < name_end(l, i) ==> is_name_char(l[j]),
        name_end(l, i) < l.len() ==> !is_name_char(l[name_end(l, i)]),
    decreases l.len() - i,
{
    if i < l.len() && is_name_char(l[i]) {
        lemma_name_end(l, i + 1);
    }
}

/// A run of whitespace from `i` to `j` puts the end of the whitespace scan
/// at `j` exactly.
pub proof fn lemma_ws_end_run(l: Seq<char>, i: int, j: int)
    requires
        0 <= i <= j <= l.len(),
        forall|k: int| i <= k < j ==> is_wspace(#[trigger] l[k]),
        j == l.len() || !is_wspace(l[j]),
    ensures
        ws_end(l, i) == j,
    decreases j - i,
{
    if i < j {
        lemma_ws_end_run(l, i + 1, j);
    }
}

/// A run of name characters from `i` to `j` puts the end of the name scan
/// at `j` exactly.
pub proof fn lemma_name_end_run(l: Seq<char>, i: int, j: int)
    requires
        0 <= i <= j <= l.len(),
        forall|k: int| i <= k < j ==> is_name_char(#[trigger] l[k]),
        j == l.len() || !is_name_char(l[j]),
    ensures
        name_end(l, i) == j,
    decreases j - i,
{
    if i < j {
        lemma_name_end_run(l, i + 1, j);
    }
}

pub proof fn lemma_last_nonws(l: Seq<char>)
    ensures
        -1 <= last_nonws(l) < l.len(),
        last_nonws(l) >= 0 ==> !is_wspace(l[last_nonws(l)]),
        forall|j: int| last_nonws(l) < j < l.len() ==> is_wspace(l[j]),
        (last_nonws(l) == -1) == is_blank(l),
    decreases l.len(),
{
    if l.len() > 0 && is_wspace(l.last()) {
        lemma_last_nonws(l.drop_last());
        assert(forall|j: int| 0 <= j < l.len() - 1 ==> l[j] == l.drop_last()[j]);
    }
}

/// Lexicographic order on character sequences by code point, the order in
/// which `str` comparison in std ranks UTF-8 text.
pub open spec fn lex_lt(a: Seq<char>, b: Seq<char>) -> bool
    decreases a.len(),
{
    if b.len() == 0 {
        false
    } else if a.len() == 0 {
        true
    } else if a[0] == b[0] {
        lex_lt(a.drop_first(), b.drop_first())
    } else {
        (a[0] as u32) < (b[0] as u32)
    }
}

/// `p` is a prefix of `s`.
pub open spec fn str_prefix(p: Seq<char>, s: Seq<char>) -> bool {
    p.len() <= s.len() && s.subrange(0, p.len() as int) == p
}

/// Comparison is transitive.
pub proof fn lemma_lex_trans(a: Seq<char>, b: Seq<char>, c: Seq<char>)
    requires
        lex_lt(a, b),
        lex_lt(b, c),
    ensures
        lex_lt(a, c),
    decreases a.len(),
{
    if a.len() == 0 {
    } else if b.len() == 0 {
    } else {
        if a[0] == b[0] && b[0] == c[0] {
            lemma_lex_trans(a.drop_first(), b.drop_first(), c.drop_first());
        }
    }
}

/// Comparison is irreflexive.
pub proof fn lemma_lex_irrefl(a: Seq<char>)
    ensures
        !lex_lt(a, a),
    decreases a.len(),
{
    if a.len() > 0 {
        lemma_lex_irrefl(a.drop_first());
    }
}

/// Exec test for [`is_wspace`].
pub fn wspace_char(c: char) -> (r: bool)
    ensures
        r == is_wspace(c),
{
    let u = c as u32;
    (9 <= u && u <= 13) || u == 32 || u == 0x85 || u == 0xA0 || u == 0x1680 || (0x2000 <= u && u
        <= 0x200A) || u == 0x2028 || u == 0x2029 || u == 0x202F || u == 0x205F || u == 0x3000
}

/// Exec test for [`is_name_char`].
pub fn name_char(c: char) -> (r: bool)
    ensures
        r == is_name_char(c),
{
    let u = c as u32;
    (97 <= u && u <= 122) || (65 <= u && u <= 90) || (48 <= u && u <= 57) || c == '-' || c == '_'
}

/// Exec counterpart of [`ws_end`].
pub fn ws_end_at(s: &str, i: usize) -> (r: usize)
    requires
        i <= s@.len(),
    ensures
        r == ws_end(s@, i as int),
{
    let n = s.unicode_len();
    let mut j = i;
    while j < n && wspace_char(s.get_char(j))
        invariant
            i <= j <= n,
            n == s@.len(),
            ws_end(s@, i as int) == ws_end(s@, j as int),
        decreases n - j,
    {
        j = j + 1;
    }
    j
}

/// Exec counterpart of [`name_end`].
pub fn name_end_at(s: &str, i: usize) -> (r: usize)
    requires
        i <= s@.len(),
    ensures
        r == name_end(s@, i as int),
{
    let n = s.unicode_len();
    let mut j = i;
    while j < n && name_char(s.get_char(j))
        invariant
            i <= j <= n,
            n == s@.len(),
            name_end(s@, i as int) == name_end(s@, j as int),
        decreases n - j,
    {
        j = j + 1;
    }
    j
}

/// Exec counterpart of [`last_nonws`]: `None` when the line is blank.
pub fn last_nonws_at(s: &str) -> (r: Option<usize>)
    ensures
        match r {
            Some(t) => last_nonws(s@) == t as int,
            None => last_nonws(s@) == -1,
        },
{
    let n = s.unicode_len();
    proof {
        assert(s@.take(n as int) =~= s@);
    }
    let mut j = n;
    while j > 0 && wspace_char(s.get_char(j - 1))
        invariant
            j <= n,
            n == s@.len(),
            last_nonws(s@) == last_nonws(s@.take(j as int)),
        decreases j,
    {
        proof {
            assert(s@.take(j as int).drop_last() =~= s@.take(j - 1 as int));
        }
        j = j - 1;
    }
    if j == 0 {
        proof {
            assert(s@.take(0) =~= Seq::<char>::empty());
        }
        None
    } else {
        proof {
            assert(s@.take(j as int).last() == s@[j - 1]);
            assert(s@.take(j as int).drop_last() =~= s@.take(j - 1 as int));
        }
        Some(j - 1)
    }
}

/// Exec test for [`is_blank`].
pub fn blank_line(s: &str) -> (r: bool)
    ensures
        r == is_blank(s@),
{
    proof {
        lemma_last_nonws(s@);
    }
    match last_nonws_at(s) {
        Some(_) => false,
        None => true,
    }
}

/// Exec test for a character occurring on a line.
pub fn str_contains_char(s: &str, c: char) -> (r: bool)
    ensures
        r == s@.contains(c),
{
    let n = s.unicode_len();
    let mut i: usize = 0;
    while i < n
        invariant
            i <= n,
            n == s@.len(),
            forall|j: int| 0 <= j < i ==> s@[j] != c,
        decreases n - i,
    {
        if s.get_char(i) == c {
            proof {
                assert(s@[i as int] == c);
            }
            return true;
        }
        i = i + 1;
    }
    false
}

/// Exec test for text equality of two string slices.
pub fn str_eq(a: &str, b: &str) -> (r: bool)
    ensures
        r == (a@ == b@),
{
    let na = a.unicode_len();
    let nb = b.unicode_len();
    if na != nb {
        return false;
    }
    let mut i: usize = 0;
    while i < na
        invariant
            i <= na,
            na == a@.len(),
            na == b@.len(),
            forall|j: int| 0 <= j < i ==> a@[j] == b@[j],
        decreases na - i,
    {
        if a.get_char(i) != b.get_char(i) {
            proof {
                assert(a@[i as int] != b@[i as int]);
            }
            return false;
        }
        i = i + 1;
    }
    proof {
        assert(a@ =~= b@);
    }
    true
}

/// Exec test for [`str_prefix`].
pub fn str_starts_with(s: &str, p: &str) -> (r: bool)
    ensures
        r == str_prefix(p@, s@),
{
    let np = p.unicode_len();
    let ns = s.unicode_len();
    if np > ns {
        return false;
    }
    let mut i: usize = 0;
    while i < np
        invariant
            i <= np <= ns,
            np == p@.len(),
            ns == s@.len(),
            forall|j: int| 0 <= j < i ==> s@[j] == p@[j],
        decreases np - i,
    {
        if s.get_char(i) != p.get_char(i) {
            proof {
                assert(s@.subrange(0, np as int)[i as int] != p@[i as int]);
            }
            return false;
        }
        i = i + 1;
    }
    proof {
        assert(s@.subrange(0, np as int) =~= p@);
    }
    true
}

/// Exec counterpart of [`lex_lt`].
pub fn str_lt(a: &str, b: &str) -> (r: bool)
    ensures
        r == lex_lt(a@, b@),
{
    let na = a.unicode_len();
    let nb = b.unicode_len();
    proof {
        assert(a@.skip(0) =~= a@);
        assert(b@.skip(0) =~= b@);
    }
    let mut i: usize = 0;
    loop
        invariant
            i <= na,
            i <= nb,
            na == a@.len(),
            nb == b@.len(),
            lex_lt(a@, b@) == lex_lt(a@.skip(i as int), b@.skip(i as int)),
            forall|j: int| 0 <= j < i ==> a@[j] == b@[j],
        decreases na - i,
    {
        if i >= nb {
            proof {
                assert(b@.skip(i as int).len() == 0);
            }
            return false;
        }
        if i >= na {
            proof {
                assert(a@.skip(i as int).len() == 0);
                assert(b@.skip(i as int).len() > 0);
            }
            return true;
        }
        let ca = a.get_char(i);
        let cb = b.get_char(i);
        proof {
            assert(a@.skip(i as int)[0] == a@[i as int]);
            assert(b@.skip(i as int)[0] == b@[i as int]);
            assert(a@.skip(i as int).drop_first() =~= a@.skip(i + 1));
            assert(b@.skip(i as int).drop_first() =~= b@.skip(i + 1));
        }
        if ca == cb {
            i = i + 1;
        } else {
            return (ca as u32) < (cb as u32);
        }
    }
}

} // verus!
