//! Decoding SCON text: splitting it into lines at their depths (one line per
//! text line, or one per `;`-separated segment of a minified document),
//! detecting the indent, and reading the value that the lines make up.
use vstd::prelude::*;
use crate::inline::{has_inline_value_after_colon, inline_after_colon, DecodeError};
use crate::layout::{dash, decode_lines, document_of, lines_view, value_result, LineModel, ParsedLine};
use crate::text::{
    chars_of, count_lead_spaces, ends_with, find, find_char, find_char_from, has_char, has_prefix,
    find_from, has_suffix, is_ascii_ws, lead_spaces, lead_spaces_from, lemma_find_from,
    lemma_lead_spaces_from, lines, lines_from,
    slice_chars, starts_with, strip_cr, trim, trim_chars, trim_range, contains_char,
};
use crate::value::{SpecValue, Value};

verus! {

// ---------------------------------------------------------------------------
// Lines of a document
// ---------------------------------------------------------------------------
/// Content that yields no line: nothing, a `#` comment, or a directive
/// (`@@`, `@use `, `s:`, `r:`, `sec:`).
pub open spec fn skipped(t: Seq<char>) -> bool {
    ||| t.len() == 0
    ||| t[0] == '#'
    ||| starts_with(t, seq!['@', '@'])
    ||| starts_with(t, seq!['@', 'u', 's', 'e', ' '])
    ||| starts_with(t, seq!['s', ':'])
    ||| starts_with(t, seq!['r', ':'])
    ||| starts_with(t, seq!['s', 'e', 'c', ':'])
}

fn is_skipped(t: &[char]) -> (r: bool)
    ensures
        r == skipped(t@),
{
    t.len() == 0 || t[0] == '#' || has_prefix(t, &['@', '@']) || has_prefix(
        t,
        &['@', 'u', 's', 'e', ' '],
    ) || has_prefix(t, &['s', ':']) || has_prefix(t, &['r', ':']) || has_prefix(
        t,
        &['s', 'e', 'c', ':'],
    )
}

/// The line that a text line gives, if any: its trimmed content at the depth
/// that its leading spaces make with `indent` spaces per level.
pub open spec fn line_of(l: Seq<char>, indent: nat) -> Seq<LineModel> {
    let t = trim(l);
    if skipped(t) {
        Seq::empty()
    } else {
        seq![
            LineModel {
                depth: if indent > 0 {
                    (lead_spaces(l) / indent as int) as nat
                } else {
                    0
                },
                content: t,
            },
        ]
    }
}

/// The lines that text lines give.
pub open spec fn lines_model(ls: Seq<Seq<char>>, indent: nat) -> Seq<LineModel>
    decreases ls.len(),
{
    if ls.len() == 0 {
        Seq::empty()
    } else {
        line_of(ls[0], indent) + lines_model(ls.drop_first(), indent)
    }
}

/// The lines of a text with `indent` spaces per level.
pub open spec fn text_lines(t: Seq<char>, indent: nat) -> Seq<LineModel> {
    lines_model(lines(t), indent)
}

/// The text line that starts at `i`, and where the next one starts.
pub(crate) fn line_at(t: &[char], i: usize) -> (r: (Vec<char>, usize))
    requires
        i < t@.len(),
    ensures
        lines_from(t@, i as int) == seq![r.0@] + lines_from(t@, r.1 as int),
        i < r.1 <= t@.len(),
{
    let n = t.len();
    proof {
        lemma_find_from(t@, '\n', i as int);
    }
    match find_char_from(t, '\n', i) {
        Some(j) => {
            let e = if j > i && t[j - 1] == '\r' {
                j - 1
            } else {
                j
            };
            let line = slice_chars(t, i, e);
            proof {
                assert(line@ == strip_cr(t@.subrange(i as int, j as int)));
            }
            (line, j + 1)
        },
        None => {
            let line = slice_chars(t, i, n);
            proof {
                assert(lines_from(t@, t@.len() as int) == Seq::<Seq<char>>::empty());
                assert(seq![line@] + Seq::<Seq<char>>::empty() =~= seq![line@]);
            }
            (line, n)
        },
    }
}

/// The lines of a text with `indent` spaces per level.
pub(crate) fn split_lines(t: &[char], indent: usize) -> (r: Vec<ParsedLine>)
    ensures
        lines_view(r@) == text_lines(t@, indent as nat),
{
    let mut out: Vec<ParsedLine> = Vec::new();
    let mut i: usize = 0;
    while i < t.len()
        invariant
            i <= t@.len(),
            text_lines(t@, indent as nat) == lines_view(out@) + lines_model(
                lines_from(t@, i as int),
                indent as nat,
            ),
        decreases t@.len() - i,
    {
        let (line, next) = line_at(t, i);
        let ghost rest = lines_from(t@, next as int);
        proof {
            let s = seq![line@] + rest;
            assert(s[0] == line@);
            assert(s.drop_first() =~= rest);
        }
        let tr = trim_chars(line.as_slice());
        let ghost before = out@;
        if !is_skipped(tr.as_slice()) {
            let spaces = count_lead_spaces(line.as_slice());
            let depth = if indent > 0 {
                spaces / indent
            } else {
                0
            };
            out.push(ParsedLine { depth, content: tr });
            proof {
                assert(lines_view(out@) =~= lines_view(before) + line_of(line@, indent as nat));
            }
        } else {
            proof {
                assert(lines_view(out@) =~= lines_view(before) + line_of(line@, indent as nat));
            }
        }
        proof {
            assert(lines_view(before) + line_of(line@, indent as nat) + lines_model(rest, indent as nat)
                =~= lines_view(before) + (line_of(line@, indent as nat) + lines_model(rest, indent as nat)));
        }
        i = next;
    }
    proof {
        assert(lines_from(t@, i as int) == Seq::<Seq<char>>::empty());
        assert(lines_view(out@) + Seq::<LineModel>::empty() =~= lines_view(out@));
    }
    out
}

// ---------------------------------------------------------------------------
// Indent detection
// ---------------------------------------------------------------------------
/// The leading spaces of the text after the first line feed, where there are
/// some and something other than ASCII whitespace follows them.
pub open spec fn indent_after_newline(t: Seq<char>) -> Option<nat> {
    let nl = find(t, '\n');
    if nl < 0 {
        None
    } else {
        let after = t.subrange(nl + 1, t.len() as int);
        let sp = lead_spaces(after);
        if sp > 0 && after.len() > sp && !is_ascii_ws(after[sp]) {
            Some(sp as nat)
        } else {
            None
        }
    }
}

/// The leading spaces of the first indented line that is neither blank nor a
/// `#` comment.
pub open spec fn first_indent(ls: Seq<Seq<char>>) -> Option<nat>
    decreases ls.len(),
{
    if ls.len() == 0 {
        None
    } else {
        let l = ls[0];
        let t = trim(l);
        if lead_spaces(l) > 0 && t.len() > 0 && t[0] != '#' {
            Some(lead_spaces(l) as nat)
        } else {
            first_indent(ls.drop_first())
        }
    }
}

/// The indent in use after reading `t`: unchanged unless detection is on; with
/// detection, taken from the line after the first line feed, or else from the
/// first indented line, or else unchanged.
pub open spec fn detected_indent(indent: nat, auto: bool, t: Seq<char>) -> nat {
    if !auto {
        indent
    } else {
        match indent_after_newline(t) {
            Some(n) => n,
            None => match first_indent(lines(t)) {
                Some(n) => n,
                None => indent,
            },
        }
    }
}

fn char_is_ascii_ws(c: char) -> (r: bool)
    ensures
        r == is_ascii_ws(c),
{
    c == '\t' || c == '\n' || c == '\x0C' || c == '\r' || c == ' '
}

pub(crate) fn find_indent_after_newline(t: &[char]) -> (r: Option<usize>)
    ensures
        match r {
            Some(n) => indent_after_newline(t@) == Some(n as nat),
            None => indent_after_newline(t@) is None,
        },
{
    let n = t.len();
    proof {
        lemma_find_from(t@, '\n', 0);
    }
    match find_char(t, '\n') {
        None => None,
        Some(nl) => {
            let after = slice_chars(t, nl + 1, n);
            let sp = count_lead_spaces(after.as_slice());
            if sp > 0 && after.len() > sp && !char_is_ascii_ws(after[sp]) {
                Some(sp)
            } else {
                None
            }
        },
    }
}

pub(crate) fn find_first_indent(t: &[char]) -> (r: Option<usize>)
    ensures
        match r {
            Some(n) => first_indent(lines(t@)) == Some(n as nat),
            None => first_indent(lines(t@)) is None,
        },
{
    let mut i: usize = 0;
    while i < t.len()
        invariant
            i <= t@.len(),
            first_indent(lines(t@)) == first_indent(lines_from(t@, i as int)),
        decreases t@.len() - i,
    {
        let (line, next) = line_at(t, i);
        let ghost rest = lines_from(t@, next as int);
        proof {
            let s = seq![line@] + rest;
            assert(s[0] == line@);
            assert(s.drop_first() =~= rest);
        }
        let sp = count_lead_spaces(line.as_slice());
        let tr = trim_chars(line.as_slice());
        if sp > 0 && tr.len() > 0 && tr[0] != '#' {
            return Some(sp);
        }
        i = next;
    }
    proof {
        assert(lines_from(t@, i as int) == Seq::<Seq<char>>::empty());
    }
    None
}

// ---------------------------------------------------------------------------
// Minified documents
// ---------------------------------------------------------------------------
/// A document on one line whose lines are separated by `;`.
pub open spec fn is_minified(t: Seq<char>) -> bool {
    !contains_char(t, '\n') && contains_char(t, ';')
}

/// The last `;` of the run of semicolons that starts at `i`.
pub open spec fn semi_run_end(t: Seq<char>, i: int) -> int
    decreases t.len() - i,
{
    if 0 <= i && i + 1 < t.len() && t[i + 1] == ';' {
        semi_run_end(t, i + 1)
    } else {
        i
    }
}

pub proof fn lemma_semi_run_end(t: Seq<char>, i: int)
    requires
        0 <= i < t.len(),
    ensures
        i <= semi_run_end(t, i) < t.len(),
    decreases t.len() - i,
{
    if i + 1 < t.len() && t[i + 1] == ';' {
        lemma_semi_run_end(t, i + 1);
    }
}

/// How many levels a segment opens: one for a key with nothing after its
/// colon, one for a `- ` list item.
pub open spec fn opens(s: Seq<char>) -> nat {
    (if ends_with(s, seq![':']) && !inline_after_colon(s) {
        1nat
    } else {
        0nat
    }) + (if starts_with(s, dash()) {
        1nat
    } else {
        0nat
    })
}

/// The lines of a minified document, scanning from `i`: the current segment
/// starts at `seg`, `in_quotes` tells whether `i` is inside a quoted string,
/// and `depth` is the depth of the next line.  A run of `n` semicolons ends a
/// segment and, from two on, closes `n - 1` levels.
pub open spec fn min_scan(
    t: Seq<char>,
    i: int,
    seg: int,
    in_quotes: bool,
    depth: nat,
    acc: Seq<LineModel>,
) -> Seq<LineModel>
    decreases t.len() - i,
{
    if i < 0 || i >= t.len() {
        let s = trim(t.subrange(seg, t.len() as int));
        if skipped(s) {
            acc
        } else {
            acc.push(LineModel { depth, content: s })
        }
    } else if t[i] == '\\' && in_quotes && i + 1 < t.len() {
        min_scan(t, i + 2, seg, in_quotes, depth, acc)
    } else if t[i] == '"' {
        min_scan(t, i + 1, seg, !in_quotes, depth, acc)
    } else if t[i] == ';' && !in_quotes {
        let e = semi_run_end(t, i);
        proof {
            lemma_semi_run_end(t, i);
        }
        let count = e - i + 1;
        let s = trim(t.subrange(seg, i));
        let acc2 = if skipped(s) {
            acc
        } else {
            acc.push(LineModel { depth, content: s })
        };
        let d2 = if skipped(s) {
            depth
        } else {
            depth + opens(s)
        };
        let d3: nat = if count >= 2 {
            if d2 >= count - 1 {
                (d2 - (count - 1)) as nat
            } else {
                0
            }
        } else {
            d2
        };
        min_scan(t, e + 1, e + 1, in_quotes, d3, acc2)
    } else {
        min_scan(t, i + 1, seg, in_quotes, depth, acc)
    }
}

/// The lines of a minified document.
pub open spec fn minified_lines(t: Seq<char>) -> Seq<LineModel> {
    min_scan(t, 0, 0, false, 0, Seq::empty())
}

fn opens_of(s: &[char]) -> (r: usize)
    ensures
        r == opens(s@),
        r <= s@.len(),
{
    let colon: [char; 1] = [':'];
    let dash_chars: [char; 2] = ['-', ' '];
    proof {
        assert(colon@ =~= seq![':']);
        assert(dash_chars@ =~= dash());
    }
    let a: usize = if has_suffix(s, &colon) && !has_inline_value_after_colon(s) {
        1
    } else {
        0
    };
    let b: usize = if has_prefix(s, &dash_chars) {
        1
    } else {
        0
    };
    proof {
        if a == 1 && b == 1 {
            assert(s@.len() >= 2);
            if s@.len() == 2 {
                assert(s@.subrange(0, 2)[1] == ' ');
                assert(s@.subrange(s@.len() - 1, s@.len() as int)[0] == ':');
            }
        }
    }
    a + b
}

/// The lines of a minified document.
fn split_minified(t: &[char]) -> (r: Vec<ParsedLine>)
    ensures
        lines_view(r@) == minified_lines(t@),
{
    let n = t.len();
    let mut out: Vec<ParsedLine> = Vec::new();
    let mut depth: usize = 0;
    let mut seg: usize = 0;
    let mut in_quotes = false;
    let mut i: usize = 0;
    proof {
        assert(lines_view(out@) =~= Seq::<LineModel>::empty());
    }
    while i < n
        invariant
            seg <= i <= n,
            n == t@.len(),
            depth <= seg,
            minified_lines(t@) == min_scan(
                t@,
                i as int,
                seg as int,
                in_quotes,
                depth as nat,
                lines_view(out@),
            ),
        decreases n - i,
    {
        let c = t[i];
        if c == '\\' && in_quotes && i + 1 < n {
            i = i + 2;
            continue;
        }
        if c == '"' {
            in_quotes = !in_quotes;
            i = i + 1;
            continue;
        }
        if c == ';' && !in_quotes {
            let mut e = i;
            while e + 1 < n && t[e + 1] == ';'
                invariant
                    i <= e < n,
                    n == t@.len(),
                    semi_run_end(t@, i as int) == semi_run_end(t@, e as int),
                decreases n - e,
            {
                e = e + 1;
            }
            let count = e - i + 1;
            let s = trim_range(t, seg, i);
            proof {
                crate::inline::lemma_trim_len(t@.subrange(seg as int, i as int));
            }
            let ghost before = out@;
            if !is_skipped(s.as_slice()) {
                let opened = opens_of(s.as_slice());
                out.push(ParsedLine { depth, content: s });
                proof {
                    assert(lines_view(out@) =~= lines_view(before).push(
                        LineModel { depth: depth as nat, content: s@ },
                    ));
                }
                depth = depth + opened;
            }
            if count >= 2 {
                depth = if depth >= count - 1 {
                    depth - (count - 1)
                } else {
                    0
                };
            }
            seg = e + 1;
            i = e + 1;
            continue;
        }
        i = i + 1;
    }
    let s = trim_range(t, seg, n);
    if !is_skipped(s.as_slice()) {
        let ghost before = out@;
        out.push(ParsedLine { depth, content: s });
        proof {
            assert(lines_view(out@) =~= lines_view(before).push(
                LineModel { depth: depth as nat, content: s@ },
            ));
        }
    }
    out
}

// ---------------------------------------------------------------------------
// The decoder
// ---------------------------------------------------------------------------
impl DecodeError {
    /// The message that reports the error.
    pub open spec fn text(self) -> Seq<char> {
        match self {
            DecodeError::UnterminatedQuotedKey => "Unterminated quoted key"@,
            DecodeError::MissingColonAfterKey => "Missing colon after key"@,
        }
    }

    /// The message that reports the error.
    pub fn message(&self) -> (s: String)
        ensures
            s@ == self.text(),
    {
        match self {
            DecodeError::UnterminatedQuotedKey => "Unterminated quoted key".to_owned(),
            DecodeError::MissingColonAfterKey => "Missing colon after key".to_owned(),
        }
    }
}

/// The indent in use after decoding `t`; a minified document leaves it as it is.
pub open spec fn next_indent(indent: nat, auto: bool, t: Seq<char>) -> nat {
    if is_minified(t) {
        indent
    } else {
        detected_indent(indent, auto, t)
    }
}

/// What decoding `t` gives with `indent` spaces per level, detection on or off.
pub open spec fn decoded(indent: nat, auto: bool, t: Seq<char>) -> Result<SpecValue, DecodeError> {
    if is_minified(t) {
        document_of(minified_lines(t))
    } else {
        document_of(text_lines(t, next_indent(indent, auto, t)))
    }
}

/// Lines with no indented line that is neither blank nor a comment give the
/// same lines whatever the indent.
proof fn lemma_lines_model_unindented(ls: Seq<Seq<char>>, a: nat, b: nat)
    requires
        first_indent(ls) is None,
        a >= 1,
        b >= 1,
    ensures
        lines_model(ls, a) == lines_model(ls, b),
    decreases ls.len(),
{
    if ls.len() > 0 {
        let l = ls[0];
        lemma_lines_model_unindented(ls.drop_first(), a, b);
        crate::text::lemma_lead_spaces_from(l, 0);
        if lead_spaces(l) == 0 {
            assert(0int / (a as int) == 0 && 0int / (b as int) == 0);
        }
        assert(line_of(l, a) == line_of(l, b));
    }
}

/// A decoder that detects the indent reads a text in the same way whatever
/// indent it kept from the texts it read before: an indent kept from an earlier
/// text never changes what a later one decodes to.
pub proof fn lemma_kept_indent(indent: nat, t: Seq<char>)
    requires
        indent >= 1,
    ensures
        decoded(indent, true, t) == decoded(1, true, t),
{
    if !is_minified(t) && indent_after_newline(t) is None && first_indent(lines(t)) is None {
        lemma_lines_model_unindented(lines(t), indent, 1);
    }
}

// ---------------------------------------------------------------------------
// Comment lines
// ---------------------------------------------------------------------------
/// A line whose text, trimmed, starts with `#`: a comment.
pub open spec fn comment_line(c: Seq<char>) -> bool {
    &&& !contains_char(c, '\n')
    &&& trim(strip_cr(c)).len() > 0
    &&& trim(strip_cr(c))[0] == '#'
}

/// A line that is blank or a comment.
pub open spec fn quiet_line(c: Seq<char>) -> bool {
    comment_line(c) || (!contains_char(c, '\n') && trim(strip_cr(c)).len() == 0)
}

/// A line that stands for nothing in a document: blank, a `#` comment, or a
/// directive, whose trimmed text starts with `@@`, `@use `, `s:`, `r:` or
/// `sec:`.
pub open spec fn ignored_line(c: Seq<char>) -> bool {
    let t = trim(strip_cr(c));
    &&& !contains_char(c, '\n')
    &&& {
        ||| t.len() == 0
        ||| t[0] == '#'
        ||| starts_with(t, seq!['@', '@'])
        ||| starts_with(t, seq!['@', 'u', 's', 'e', ' '])
        ||| starts_with(t, seq!['s', ':'])
        ||| starts_with(t, seq!['r', ':'])
        ||| starts_with(t, seq!['s', 'e', 'c', ':'])
    }
}

/// Searching after a prefix finds what searching the rest finds, shifted.
proof fn lemma_find_shift(p: Seq<char>, r: Seq<char>, c: char, i: int)
    requires
        0 <= i,
    ensures
        find_from(p + r, c, p.len() + i) == (if find_from(r, c, i) == -1 {
            -1
        } else {
            p.len() + find_from(r, c, i)
        }),
    decreases r.len() - i,
{
    if i < r.len() {
        assert((p + r)[p.len() + i] == r[i]);
        if r[i] != c {
            lemma_find_shift(p, r, c, i + 1);
        }
    }
}

/// Searching a text that goes on past a match finds the same match.
proof fn lemma_find_prefix(u: Seq<char>, v: Seq<char>, c: char, i: int)
    requires
        0 <= i,
        find_from(u, c, i) != -1,
    ensures
        find_from(u + v, c, i) == find_from(u, c, i),
    decreases u.len() - i,
{
    lemma_find_from(u, c, i);
    assert((u + v)[i] == u[i]);
    if u[i] != c {
        lemma_find_prefix(u, v, c, i + 1);
    }
}

/// The lines of a text after a prefix are the lines of the rest.
proof fn lemma_lines_shift(p: Seq<char>, r: Seq<char>, i: int)
    requires
        0 <= i,
    ensures
        lines_from(p + r, p.len() + i) == lines_from(r, i),
    decreases r.len() - i,
{
    if i < r.len() {
        lemma_find_shift(p, r, '\n', i);
        lemma_find_from(r, '\n', i);
        let j = find_from(r, '\n', i);
        if j < i {
            assert((p + r).subrange(p.len() + i, (p + r).len() as int) =~= r.subrange(
                i,
                r.len() as int,
            ));
        } else {
            assert((p + r).subrange(p.len() + i, p.len() + j) =~= r.subrange(i, j));
            lemma_lines_shift(p, r, j + 1);
            assert(p.len() + j + 1 == p.len() + (j + 1));
        }
    }
}

/// The lines of `a`, a line feed and `r`: the lines of `a` and that line feed,
/// then the lines of `r`.
proof fn lemma_lines_cut(a: Seq<char>, r: Seq<char>, i: int)
    requires
        0 <= i <= a.len(),
    ensures
        lines_from(a + seq!['\n'] + r, i) == lines_from(a + seq!['\n'], i) + lines(r),
    decreases a.len() - i,
{
    let u = a + seq!['\n'];
    let t = u + r;
    assert(a + seq!['\n'] + r == t);
    assert(u[a.len() as int] == '\n');
    lemma_find_from(u, '\n', i);
    lemma_find_prefix(u, r, '\n', i);
    let j = find_from(u, '\n', i);
    assert(t.subrange(i, j) =~= u.subrange(i, j));
    if j < a.len() {
        lemma_lines_cut(a, r, j + 1);
    } else {
        lemma_lines_shift(u, r, 0);
        assert(lines_from(u, j + 1) =~= Seq::<Seq<char>>::empty());
    }
    assert(lines_from(t, i) =~= seq![strip_cr(u.subrange(i, j))] + lines_from(t, j + 1));
    assert(lines_from(u, i) =~= seq![strip_cr(u.subrange(i, j))] + lines_from(u, j + 1));
}

/// The lines of one line with no line feed, ended by one.
proof fn lemma_lines_one(c: Seq<char>)
    requires
        !contains_char(c, '\n'),
    ensures
        lines(c + seq!['\n']) == seq![strip_cr(c)],
{
    let u = c + seq!['\n'];
    lemma_find_from(c, '\n', 0);
    assert forall|k: int| 0 <= k < c.len() implies u[k] != '\n' by {
        assert(u[k] == c[k]);
    }
    lemma_find_from(u, '\n', 0);
    assert(u[c.len() as int] == '\n');
    assert(find_from(u, '\n', 0) == c.len());
    assert(u.subrange(0, c.len() as int) =~= c);
    assert(lines_from(u, c.len() + 1int) =~= Seq::<Seq<char>>::empty());
}

/// The lines that text lines give, one after another.
proof fn lemma_lines_model_concat(x: Seq<Seq<char>>, y: Seq<Seq<char>>, indent: nat)
    ensures
        lines_model(x + y, indent) == lines_model(x, indent) + lines_model(y, indent),
    decreases x.len(),
{
    if x.len() == 0 {
        assert(x + y =~= y);
        assert(lines_model(x, indent) =~= Seq::<LineModel>::empty());
    } else {
        assert((x + y).drop_first() =~= x.drop_first() + y);
        assert((x + y)[0] == x[0]);
        lemma_lines_model_concat(x.drop_first(), y, indent);
    }
}

/// The first indented line of text lines one after another.
proof fn lemma_first_indent_concat(x: Seq<Seq<char>>, y: Seq<Seq<char>>)
    ensures
        first_indent(x + y) == (if first_indent(x) is Some {
            first_indent(x)
        } else {
            first_indent(y)
        }),
    decreases x.len(),
{
    if x.len() == 0 {
        assert(x + y =~= y);
    } else {
        assert((x + y).drop_first() =~= x.drop_first() + y);
        assert((x + y)[0] == x[0]);
        lemma_first_indent_concat(x.drop_first(), y);
    }
}

/// Leading spaces are counted in a part that holds something else than a
/// space, whatever follows it.
proof fn lemma_lead_spaces_prefix(w: Seq<char>, x: Seq<char>, i: int)
    requires
        0 <= i <= w.len(),
        exists|k: int| i <= k < w.len() && w[k] != ' ',
    ensures
        lead_spaces_from(w + x, i) == lead_spaces_from(w, i),
        lead_spaces_from(w, i) < w.len(),
    decreases w.len() - i,
{
    let k0 = choose|k: int| i <= k < w.len() && w[k] != ' ';
    assert((w + x)[i] == w[i]);
    if w[i] == ' ' {
        assert(i + 1 <= k0);
        lemma_lead_spaces_prefix(w, x, i + 1);
    }
}

/// The lines of a text with a line put in after `a`.
proof fn lemma_comment_lines(a: Seq<char>, c: Seq<char>, b: Seq<char>)
    requires
        !contains_char(c, '\n'),
    ensures
        lines(a + seq!['\n'] + c + seq!['\n'] + b) == lines(a + seq!['\n']) + seq![strip_cr(c)]
            + lines(b),
        lines(a + seq!['\n'] + b) == lines(a + seq!['\n']) + lines(b),
{
    let t2 = a + seq!['\n'] + (c + seq!['\n'] + b);
    assert(a + seq!['\n'] + c + seq!['\n'] + b =~= t2);
    lemma_lines_cut(a, c + seq!['\n'] + b, 0);
    lemma_lines_cut(c, b, 0);
    lemma_lines_one(c);
    lemma_lines_cut(a, b, 0);
}

/// A line that stands for nothing gives no line; a blank or comment line is
/// no indented line that sets the indent.
proof fn lemma_comment_line_gives_nothing(c: Seq<char>, indent: nat)
    requires
        ignored_line(c),
    ensures
        lines_model(seq![strip_cr(c)], indent) == Seq::<LineModel>::empty(),
        quiet_line(c) ==> first_indent(seq![strip_cr(c)]) is None,
{
    let l = strip_cr(c);
    let ls = seq![l];
    assert(skipped(trim(l)));
    assert(ls[0] == l);
    assert(ls.drop_first() =~= Seq::<Seq<char>>::empty());
    assert(line_of(l, indent) =~= Seq::<LineModel>::empty());
    assert(lines_model(ls.drop_first(), indent) =~= Seq::<LineModel>::empty());
    assert(lines_model(ls, indent) == line_of(l, indent) + lines_model(ls.drop_first(), indent));
    assert(first_indent(ls.drop_first()) is None);
    if quiet_line(c) {
        assert(first_indent(ls) == first_indent(ls.drop_first()));
    }
}

/// Blank lines, comments and directives are skipped: with a set indent,
/// putting such a line (see `ignored_line`; a comment is a line whose trimmed
/// text starts with `#`) after any line of a text leaves what the text
/// decodes to unchanged.
pub proof fn lemma_comment_skipped(indent: nat, a: Seq<char>, c: Seq<char>, b: Seq<char>)
    requires
        ignored_line(c),
    ensures
        decoded(indent, false, a + seq!['\n'] + c + seq!['\n'] + b) == decoded(
            indent,
            false,
            a + seq!['\n'] + b,
        ),
{
    let t = a + seq!['\n'] + b;
    let t2 = a + seq!['\n'] + c + seq!['\n'] + b;
    lemma_comment_lines(a, c, b);
    lemma_comment_line_gives_nothing(c, indent);
    let la = lines(a + seq!['\n']);
    lemma_lines_model_concat(la + seq![strip_cr(c)], lines(b), indent);
    lemma_lines_model_concat(la, seq![strip_cr(c)], indent);
    lemma_lines_model_concat(la, lines(b), indent);
    assert(lines_model(la, indent) + Seq::<LineModel>::empty() =~= lines_model(la, indent));
    assert(t[a.len() as int] == '\n');
    assert(t2[a.len() as int] == '\n');
    lemma_find_from(t, '\n', 0);
    lemma_find_from(t2, '\n', 0);
}

/// A blank line, comment or directive put at the start of a text that is not
/// minified is skipped too, with a set indent.
pub proof fn lemma_leading_comment_skipped(indent: nat, c: Seq<char>, b: Seq<char>)
    requires
        ignored_line(c),
        !is_minified(b),
    ensures
        decoded(indent, false, c + seq!['\n'] + b) == decoded(indent, false, b),
{
    let t2 = c + seq!['\n'] + b;
    lemma_lines_cut(c, b, 0);
    lemma_lines_one(c);
    lemma_comment_line_gives_nothing(c, indent);
    lemma_lines_model_concat(seq![strip_cr(c)], lines(b), indent);
    assert(Seq::<LineModel>::empty() + lines_model(lines(b), indent) =~= lines_model(
        lines(b),
        indent,
    ));
    assert(t2[c.len() as int] == '\n');
    lemma_find_from(t2, '\n', 0);
}

/// The line after the first line feed is the same with a comment line put
/// after `a`, where `a` holds a line feed.
proof fn lemma_comment_after_newline(a: Seq<char>, c: Seq<char>, b: Seq<char>)
    requires
        contains_char(a, '\n'),
    ensures
        indent_after_newline(a + seq!['\n'] + c + seq!['\n'] + b) == indent_after_newline(
            a + seq!['\n'] + b,
        ),
{
    let t = a + seq!['\n'] + b;
    let t2 = a + seq!['\n'] + c + seq!['\n'] + b;
    lemma_find_from(a, '\n', 0);
    let nl = find(a, '\n');
    lemma_find_prefix(a, seq!['\n'] + b, '\n', 0);
    lemma_find_prefix(a, seq!['\n'] + c + seq!['\n'] + b, '\n', 0);
    assert(a + (seq!['\n'] + b) =~= t);
    assert(a + (seq!['\n'] + c + seq!['\n'] + b) =~= t2);
    let w = a.subrange(nl + 1, a.len() as int) + seq!['\n'];
    let after = t.subrange(nl + 1, t.len() as int);
    let after2 = t2.subrange(nl + 1, t2.len() as int);
    assert(after =~= w + b);
    assert(after2 =~= w + (c + seq!['\n'] + b));
    assert(w[w.len() - 1] == '\n');
    lemma_lead_spaces_prefix(w, b, 0);
    lemma_lead_spaces_prefix(w, c + seq!['\n'] + b, 0);
    let sp = lead_spaces(w);
    lemma_lead_spaces_from(w, 0);
    assert(0 <= sp < w.len());
    assert((w + b)[sp] == w[sp]);
    assert((w + (c + seq!['\n'] + b))[sp] == w[sp]);
    assert(after[sp] == w[sp]);
    assert(after2[sp] == w[sp]);
}

/// The indent that the decoder keeps is the same with a comment line put after
/// `a`, where `a` holds a line feed.
proof fn lemma_comment_next_indent(indent: nat, a: Seq<char>, c: Seq<char>, b: Seq<char>)
    requires
        quiet_line(c),
        contains_char(a, '\n'),
    ensures
        next_indent(indent, true, a + seq!['\n'] + c + seq!['\n'] + b) == next_indent(
            indent,
            true,
            a + seq!['\n'] + b,
        ),
{
    let t = a + seq!['\n'] + b;
    let t2 = a + seq!['\n'] + c + seq!['\n'] + b;
    lemma_comment_lines(a, c, b);
    lemma_comment_line_gives_nothing(c, 0);
    let la = lines(a + seq!['\n']);
    lemma_first_indent_concat(la + seq![strip_cr(c)], lines(b));
    lemma_first_indent_concat(la, seq![strip_cr(c)]);
    lemma_first_indent_concat(la, lines(b));
    lemma_comment_after_newline(a, c, b);
    assert(t[a.len() as int] == '\n');
    assert(t2[a.len() as int] == '\n');
    lemma_find_from(t, '\n', 0);
    lemma_find_from(t2, '\n', 0);
}

/// With the indent detected, a blank or comment line put after the second
/// line or later of a text changes neither what the text decodes to nor the
/// indent the decoder keeps: it is skipped, and the search for the indent
/// passes over it.  (An indented directive is skipped too, but the search for
/// the indent takes its leading spaces.)
pub proof fn lemma_comment_skipped_detecting(indent: nat, a: Seq<char>, c: Seq<char>, b: Seq<char>)
    requires
        quiet_line(c),
        contains_char(a, '\n'),
    ensures
        decoded(indent, true, a + seq!['\n'] + c + seq!['\n'] + b) == decoded(
            indent,
            true,
            a + seq!['\n'] + b,
        ),
        next_indent(indent, true, a + seq!['\n'] + c + seq!['\n'] + b) == next_indent(
            indent,
            true,
            a + seq!['\n'] + b,
        ),
{
    let t = a + seq!['\n'] + b;
    let t2 = a + seq!['\n'] + c + seq!['\n'] + b;
    lemma_comment_next_indent(indent, a, c, b);
    let n = next_indent(indent, true, t);
    lemma_comment_skipped(n, a, c, b);
    assert(t[a.len() as int] == '\n');
    assert(t2[a.len() as int] == '\n');
    lemma_find_from(t, '\n', 0);
    lemma_find_from(t2, '\n', 0);
    assert(decoded(n, false, t) == decoded(indent, true, t));
    assert(decoded(n, false, t2) == decoded(indent, true, t2));
}

/// Reads SCON text into values.  It counts `indent` spaces per level; unless an
/// indent was set, it detects the indent of each text it reads and keeps it.
pub struct Decoder {
    indent: usize,
    indent_auto_detect: bool,
}

impl Decoder {
    /// The spaces per level.
    pub closed spec fn spec_indent(&self) -> nat {
        self.indent as nat
    }

    /// Whether the indent is detected from each text.
    pub closed spec fn spec_auto(&self) -> bool {
        self.indent_auto_detect
    }

    /// A decoder that detects the indent, one space per level until it has.
    pub fn new() -> (d: Decoder)
        ensures
            d.spec_indent() == 1,
            d.spec_auto(),
    {
        Decoder { indent: 1, indent_auto_detect: true }
    }

    /// This decoder with a fixed indent of `indent` spaces (at least one).
    pub fn with_indent(self, indent: usize) -> (d: Decoder)
        ensures
            d.spec_indent() == (if indent >= 1 {
                indent as nat
            } else {
                1nat
            }),
            !d.spec_auto(),
    {
        Decoder { indent: if indent >= 1 {
            indent
        } else {
            1
        }, indent_auto_detect: false }
    }

    /// Decodes `input`.
    pub fn decode(&mut self, input: &str) -> (r: Result<Value, String>)
        ensures
            final(self).spec_auto() == old(self).spec_auto(),
            final(self).spec_indent() == next_indent(
                old(self).spec_indent(),
                old(self).spec_auto(),
                input@,
            ),
            match decoded(old(self).spec_indent(), old(self).spec_auto(), input@) {
                Ok(v) => r matches Ok(x) && x@ == v,
                Err(e) => r matches Err(m) && m@ == e.text(),
            },
    {
        let t = chars_of(input);
        if !has_char(t.as_slice(), '\n') && has_char(t.as_slice(), ';') {
            let lines = split_minified(t.as_slice());
            let r = decode_lines(&lines);
            return match r {
                Ok(v) => Ok(v),
                Err(e) => Err(e.message()),
            };
        }
        if self.indent_auto_detect {
            match find_indent_after_newline(t.as_slice()) {
                Some(n) => {
                    self.indent = n;
                },
                None => match find_first_indent(t.as_slice()) {
                    Some(n) => {
                        self.indent = n;
                    },
                    None => {},
                },
            }
        }
        let lines = split_lines(t.as_slice(), self.indent);
        let r = decode_lines(&lines);
        match r {
            Ok(v) => Ok(v),
            Err(e) => Err(e.message()),
        }
    }
}

impl Default for Decoder {
    fn default() -> (d: Decoder)
        ensures
            d.spec_indent() == 1,
            d.spec_auto(),
    {
        Decoder::new()
    }
}

} // verus!
