//! The lexical rules of SCON lines: where a key ends, quoted strings and their
//! escapes, braces and brackets, splitting at top-level delimiters, numbers
//! and primitives.
use vstd::prelude::*;
use vstd::utf8::encode_utf8;
use crate::text::{
    find, find_char, find_from, contains_char, has_char, lemma_encode_utf8_concat, lemma_find_from,
    slice_chars, starts_with, trim, trim_bounds, trim_chars, chars_eq, has_prefix, char_utf8_len,
    string_of,
};
use crate::value::SpecValue;

verus! {

// ---------------------------------------------------------------------------
// UTF-8 length threshold
// ---------------------------------------------------------------------------
/// Whether `s` takes at least `n` bytes in UTF-8.
pub fn utf8_len_at_least(s: &[char], n: usize) -> (r: bool)
    requires
        n <= 1000,
    ensures
        r == (encode_utf8(s@).len() >= n),
{
    let mut total: usize = 0;
    let mut i: usize = 0;
    while i < s.len() && total < n
        invariant
            i <= s@.len(),
            total == encode_utf8(s@.subrange(0, i as int)).len(),
            total < n || i == 0 || total <= n + 4,
            total <= n + 4,
            n <= 1000,
        decreases s.len() - i,
    {
        let w = char_utf8_len(s[i]);
        proof {
            assert(s@.subrange(0, i + 1) =~= s@.subrange(0, i as int) + seq![s@[i as int]]);
            lemma_encode_utf8_concat(s@.subrange(0, i as int), seq![s@[i as int]]);
            crate::text::lemma_encode_scalar_len(s@[i as int]);
        }
        total = total + w;
        i = i + 1;
    }
    proof {
        assert(s@ =~= s@.subrange(0, i as int) + s@.subrange(i as int, s@.len() as int));
        lemma_encode_utf8_concat(s@.subrange(0, i as int), s@.subrange(i as int, s@.len() as int));
        if i == s.len() {
            assert(s@.subrange(i as int, s@.len() as int) =~= Seq::<char>::empty());
        }
    }
    total >= n
}

// ---------------------------------------------------------------------------
// The colon that ends a key
// ---------------------------------------------------------------------------
/// The first colon outside quotes and braces, scanning from `i`.
pub open spec fn colon_scan(s: Seq<char>, i: int, in_q: bool, depth: int) -> Option<int>
    decreases s.len() - i,
{
    if i < 0 || i >= s.len() {
        None
    } else {
        let c = s[i];
        if c == '\\' && in_q && i + 1 < s.len() {
            colon_scan(s, i + 2, in_q, depth)
        } else if c == '"' {
            colon_scan(s, i + 1, !in_q, depth)
        } else if !in_q {
            let d2 = if c == '{' {
                depth + 1
            } else if c == '}' {
                depth - 1
            } else {
                depth
            };
            if c == ':' && d2 == 0 {
                Some(i)
            } else {
                colon_scan(s, i + 1, in_q, d2)
            }
        } else {
            colon_scan(s, i + 1, in_q, depth)
        }
    }
}

/// The colon that ends the key of a line.  A line of at least 20 bytes whose
/// first colon has no quote and no opening brace before it ends its key at that
/// colon; otherwise the colon is the first one outside quotes and braces.
pub open spec fn key_colon(s: Seq<char>) -> Option<int> {
    if encode_utf8(s).len() >= 20 {
        let c = find(s, ':');
        if c < 0 {
            None
        } else if !contains_char(s.take(c), '"') && !contains_char(s.take(c), '{') {
            Some(c)
        } else {
            colon_scan(s, 0, false, 0)
        }
    } else {
        colon_scan(s, 0, false, 0)
    }
}

proof fn lemma_colon_scan(s: Seq<char>, i: int, in_q: bool, depth: int)
    requires
        0 <= i,
    ensures
        colon_scan(s, i, in_q, depth) matches Some(c) ==> i <= c < s.len() && s[c] == ':',
    decreases s.len() - i,
{
    if i < s.len() {
        let c = s[i];
        if c == '\\' && in_q && i + 1 < s.len() {
            lemma_colon_scan(s, i + 2, in_q, depth);
        } else if c == '"' {
            lemma_colon_scan(s, i + 1, !in_q, depth);
        } else if !in_q {
            let d2 = if c == '{' {
                depth + 1
            } else if c == '}' {
                depth - 1
            } else {
                depth
            };
            if !(c == ':' && d2 == 0) {
                lemma_colon_scan(s, i + 1, in_q, d2);
            }
        } else {
            lemma_colon_scan(s, i + 1, in_q, depth);
        }
    }
}

/// A key colon is a colon of the line.
pub proof fn lemma_key_colon(s: Seq<char>)
    ensures
        key_colon(s) matches Some(c) ==> 0 <= c < s.len() && s[c] == ':',
{
    lemma_colon_scan(s, 0, false, 0);
    lemma_find_from(s, ':', 0);
}

/// The colon that ends the key of a line.
pub fn find_key_colon(s: &[char]) -> (r: Option<usize>)
    ensures
        match r {
            Some(c) => key_colon(s@) == Some(c as int),
            None => key_colon(s@) is None,
        },
        r matches Some(c) ==> c < s@.len() && s@[c as int] == ':',
{
    proof {
        lemma_key_colon(s@);
    }
    if utf8_len_at_least(s, 20) {
        proof {
            lemma_find_from(s@, ':', 0);
        }
        match find_char(s, ':') {
            Some(colon) => {
                let prefix = slice_chars(s, 0, colon);
                proof {
                    assert(prefix@ =~= s@.take(colon as int));
                }
                if !has_char(prefix.as_slice(), '"') && !has_char(prefix.as_slice(), '{') {
                    return Some(colon);
                }
            },
            None => {
                return None;
            },
        }
    }
    let n = s.len();
    let mut in_quotes = false;
    // the brace depth is `opens - closes`
    let mut opens: usize = 0;
    let mut closes: usize = 0;
    let mut i: usize = 0;
    assert(key_colon(s@) == colon_scan(s@, 0, false, 0));
    while i < n
        invariant
            n == s@.len(),
            opens + closes <= i,
            key_colon(s@) == colon_scan(s@, 0, false, 0),
            colon_scan(s@, 0, false, 0) == colon_scan(
                s@,
                i as int,
                in_quotes,
                opens as int - closes as int,
            ),
        decreases n - i,
    {
        let c = s[i];
        if c == '\\' && in_quotes && i + 1 < n {
            i = i + 2;
            continue ;
        }
        if c == '"' {
            in_quotes = !in_quotes;
            i = i + 1;
            continue ;
        }
        if !in_quotes {
            if c == '{' {
                opens = opens + 1;
            }
            if c == '}' {
                closes = closes + 1;
            }
            if c == ':' && opens == closes {
                return Some(i);
            }
        }
        i = i + 1;
    }
    None
}

// ---------------------------------------------------------------------------
// Quoted strings
// ---------------------------------------------------------------------------
/// The closing quote of a string whose opening quote is before `i`; a
/// backslash skips the character after it.
pub open spec fn quote_scan(s: Seq<char>, i: int) -> Option<int>
    decreases s.len() - i,
{
    if i < 0 || i >= s.len() {
        None
    } else if s[i] == '"' {
        Some(i)
    } else if s[i] == '\\' {
        if i + 1 < s.len() {
            quote_scan(s, i + 2)
        } else {
            None
        }
    } else {
        quote_scan(s, i + 1)
    }
}

/// The closing quote of the string that opens at `start`.
pub open spec fn closing_quote(s: Seq<char>, start: int) -> Option<int> {
    quote_scan(s, start + 1)
}

pub proof fn lemma_quote_scan(s: Seq<char>, i: int)
    requires
        0 <= i,
    ensures
        quote_scan(s, i) matches Some(c) ==> i <= c < s.len() && s[c] == '"',
    decreases s.len() - i,
{
    if i < s.len() && s[i] != '"' {
        if s[i] == '\\' {
            if i + 1 < s.len() {
                lemma_quote_scan(s, i + 2);
            }
        } else {
            lemma_quote_scan(s, i + 1);
        }
    }
}

/// The closing quote of the string that opens at `start`.
pub fn find_closing_quote(s: &[char], start: usize) -> (r: Option<usize>)
    requires
        start < s@.len(),
    ensures
        match r {
            Some(c) => closing_quote(s@, start as int) == Some(c as int),
            None => closing_quote(s@, start as int) is None,
        },
        r matches Some(c) ==> start < c < s@.len() && s@[c as int] == '"',
{
    proof {
        lemma_quote_scan(s@, start + 1);
    }
    let n = s.len();
    let mut i = start + 1;
    while i < n
        invariant
            n == s@.len(),
            start < i,
            closing_quote(s@, start as int) == quote_scan(s@, i as int),
        decreases n - i,
    {
        if s[i] == '"' {
            return Some(i);
        }
        if s[i] == '\\' {
            if n - i < 2 {
                return None;
            }
            i = i + 2;
        } else {
            i = i + 1;
        }
    }
    None
}

/// What an escape `\c` stands for: `\\`, `\"`, `\n`, `\r`, `\t` and `\;`
/// stand for one character; any other escape is kept as it is.
pub open spec fn unescape_pair(c: char) -> Seq<char> {
    if c == '\\' {
        seq!['\\']
    } else if c == '"' {
        seq!['"']
    } else if c == 'n' {
        seq!['\n']
    } else if c == 'r' {
        seq!['\r']
    } else if c == 't' {
        seq!['\t']
    } else if c == ';' {
        seq![';']
    } else {
        seq!['\\', c]
    }
}

/// Escapes resolved from `i` on, character by character: a backslash and the
/// character after it make one escape, and every other character stands for
/// itself.
pub open spec fn unescape_from(s: Seq<char>, i: int) -> Seq<char>
    decreases s.len() - i,
{
    if i < 0 || i >= s.len() {
        Seq::empty()
    } else if s[i] == '\\' && i + 1 < s.len() {
        unescape_pair(s[i + 1]) + unescape_from(s, i + 2)
    } else {
        seq![s[i]] + unescape_from(s, i + 1)
    }
}

/// The escapes of a string resolved.
pub open spec fn unescape(s: Seq<char>) -> Seq<char> {
    unescape_from(s, 0)
}

/// Escapes resolved.
pub fn unescape_string(s: &[char]) -> (r: Vec<char>)
    ensures
        r@ == unescape(s@),
{
    let n = s.len();
    let mut out: Vec<char> = Vec::new();
    let mut i: usize = 0;
    while i < n
        invariant
            n == s@.len(),
            i <= n + 1,
            out@ + unescape_from(s@, i as int) == unescape_from(s@, 0),
        decreases n + 1 - i,
    {
        if s[i] == '\\' && i + 1 < n {
            let e = s[i + 1];
            if e == '\\' {
                out.push('\\');
            } else if e == '"' {
                out.push('"');
            } else if e == 'n' {
                out.push('\n');
            } else if e == 'r' {
                out.push('\r');
            } else if e == 't' {
                out.push('\t');
            } else if e == ';' {
                out.push(';');
            } else {
                out.push('\\');
                out.push(e);
            }
            proof {
                assert(unescape_from(s@, i as int) == unescape_pair(e) + unescape_from(s@, i + 2));
            }
            i = i + 2;
        } else {
            out.push(s[i]);
            i = i + 1;
        }
    }
    assert(unescape_from(s@, i as int) =~= Seq::<char>::empty());
    assert(out@ =~= out@ + unescape_from(s@, i as int));
    out
}

// ---------------------------------------------------------------------------
// Braces and brackets
// ---------------------------------------------------------------------------
/// The inside of the first balanced `{...}` group outside quotes, scanning
/// from `i`.
pub open spec fn brace_scan(s: Seq<char>, i: int, depth: int, start: Option<int>, in_q: bool) -> Option<
    (int, int),
>
    decreases s.len() - i,
{
    if i < 0 || i >= s.len() {
        None
    } else {
        let c = s[i];
        if c == '\\' && in_q && i + 1 < s.len() {
            brace_scan(s, i + 2, depth, start, in_q)
        } else if c == '"' {
            brace_scan(s, i + 1, depth, start, !in_q)
        } else if !in_q && c == '{' {
            brace_scan(
                s,
                i + 1,
                depth + 1,
                if depth == 0 {
                    Some(i)
                } else {
                    start
                },
                in_q,
            )
        } else if !in_q && c == '}' {
            if depth - 1 == 0 {
                Some(
                    (
                        match start {
                            Some(st) => st + 1,
                            None => 1,
                        },
                        i,
                    ),
                )
            } else {
                brace_scan(s, i + 1, depth - 1, start, in_q)
            }
        } else {
            brace_scan(s, i + 1, depth, start, in_q)
        }
    }
}

/// The bounds of the inside of the first balanced `{...}` group.
pub open spec fn brace_content(s: Seq<char>) -> Option<(int, int)> {
    brace_scan(s, 0, 0, None, false)
}

pub proof fn lemma_brace_scan(s: Seq<char>, i: int, depth: int, start: Option<int>, in_q: bool)
    requires
        0 <= i,
        depth >= 1 ==> (start matches Some(st) && 0 <= st < i),
    ensures
        brace_scan(s, i, depth, start, in_q) matches Some((a, b)) ==> 1 <= a <= b < s.len(),
    decreases s.len() - i,
{
    if i < s.len() {
        let c = s[i];
        if c == '\\' && in_q && i + 1 < s.len() {
            lemma_brace_scan(s, i + 2, depth, start, in_q);
        } else if c == '"' {
            lemma_brace_scan(s, i + 1, depth, start, !in_q);
        } else if !in_q && c == '{' {
            lemma_brace_scan(
                s,
                i + 1,
                depth + 1,
                if depth == 0 {
                    Some(i)
                } else {
                    start
                },
                in_q,
            );
        } else if !in_q && c == '}' {
            if depth - 1 != 0 {
                lemma_brace_scan(s, i + 1, depth - 1, start, in_q);
            }
        } else {
            lemma_brace_scan(s, i + 1, depth, start, in_q);
        }
    }
}

/// The bounds of the inside of the first balanced `{...}` group.
pub fn extract_brace_content(s: &[char]) -> (r: Option<(usize, usize)>)
    ensures
        match r {
            Some((a, b)) => brace_content(s@) == Some((a as int, b as int)),
            None => brace_content(s@) is None,
        },
        r matches Some((a, b)) ==> 1 <= a <= b < s@.len(),
{
    proof {
        lemma_brace_scan(s@, 0, 0, None, false);
    }
    let n = s.len();
    // the depth is `opens - closes`
    let mut opens: usize = 0;
    let mut closes: usize = 0;
    let mut start: Option<usize> = None;
    let mut in_quotes = false;
    let mut i: usize = 0;
    let ghost gstart: Option<int> = None;
    while i < n
        invariant
            n == s@.len(),
            opens + closes <= i,
            gstart == match start {
                Some(st) => Some(st as int),
                None => None::<int>,
            },
            opens > closes ==> (start matches Some(st) && st < i),
            brace_content(s@) == brace_scan(
                s@,
                i as int,
                opens as int - closes as int,
                gstart,
                in_quotes,
            ),
        decreases n - i,
    {
        let c = s[i];
        if c == '\\' && in_quotes && i + 1 < n {
            i = i + 2;
            continue ;
        }
        if c == '"' {
            in_quotes = !in_quotes;
            i = i + 1;
            continue ;
        }
        if !in_quotes {
            if c == '{' {
                if opens == closes {
                    start = Some(i);
                    proof {
                        gstart = Some(i as int);
                    }
                }
                opens = opens + 1;
            } else if c == '}' {
                closes = closes + 1;
                if opens == closes {
                    let st = match start {
                        Some(st) => st,
                        None => 0,
                    };
                    return Some((st + 1, i));
                }
            }
        }
        i = i + 1;
    }
    None
}

/// The `]` that closes the `[` at or after `i`, outside quotes.
pub open spec fn bracket_scan(s: Seq<char>, i: int, depth: int, in_q: bool) -> Option<int>
    decreases s.len() - i,
{
    if i < 0 || i >= s.len() {
        None
    } else {
        let c = s[i];
        if c == '\\' && in_q && i + 1 < s.len() {
            bracket_scan(s, i + 2, depth, in_q)
        } else if c == '"' {
            bracket_scan(s, i + 1, depth, !in_q)
        } else if !in_q && c == '[' {
            bracket_scan(s, i + 1, depth + 1, in_q)
        } else if !in_q && c == ']' {
            if depth - 1 == 0 {
                Some(i)
            } else {
                bracket_scan(s, i + 1, depth - 1, in_q)
            }
        } else {
            bracket_scan(s, i + 1, depth, in_q)
        }
    }
}

pub proof fn lemma_bracket_scan(s: Seq<char>, i: int, depth: int, in_q: bool)
    requires
        0 <= i,
    ensures
        bracket_scan(s, i, depth, in_q) matches Some(c) ==> i <= c < s.len(),
    decreases s.len() - i,
{
    if i < s.len() {
        let c = s[i];
        if c == '\\' && in_q && i + 1 < s.len() {
            lemma_bracket_scan(s, i + 2, depth, in_q);
        } else if c == '"' {
            lemma_bracket_scan(s, i + 1, depth, !in_q);
        } else if !in_q && c == '[' {
            lemma_bracket_scan(s, i + 1, depth + 1, in_q);
        } else if !in_q && c == ']' {
            if depth - 1 != 0 {
                lemma_bracket_scan(s, i + 1, depth - 1, in_q);
            }
        } else {
            lemma_bracket_scan(s, i + 1, depth, in_q);
        }
    }
}

/// The `]` that closes the bracket group starting at `start`.
pub fn find_matching_bracket(s: &[char], start: usize) -> (r: Option<usize>)
    ensures
        match r {
            Some(c) => bracket_scan(s@, start as int, 0, false) == Some(c as int),
            None => bracket_scan(s@, start as int, 0, false) is None,
        },
        r matches Some(c) ==> start <= c < s@.len(),
{
    proof {
        lemma_bracket_scan(s@, start as int, 0, false);
    }
    let n = s.len();
    // the depth is `opens - closes`
    let mut opens: usize = 0;
    let mut closes: usize = 0;
    let mut in_quotes = false;
    let mut i = start;
    while i < n
        invariant
            n == s@.len(),
            start <= i,
            opens + closes <= i - start,
            bracket_scan(s@, start as int, 0, false) == bracket_scan(
                s@,
                i as int,
                opens as int - closes as int,
                in_quotes,
            ),
        decreases n - i,
    {
        let c = s[i];
        if c == '\\' && in_quotes && i + 1 < n {
            i = i + 2;
            continue ;
        }
        if c == '"' {
            in_quotes = !in_quotes;
            i = i + 1;
            continue ;
        }
        if !in_quotes {
            if c == '[' {
                opens = opens + 1;
            } else if c == ']' {
                closes = closes + 1;
                if opens == closes {
                    return Some(i);
                }
            }
        }
        i = i + 1;
    }
    None
}

// ---------------------------------------------------------------------------
// Splitting at top-level delimiters
// ---------------------------------------------------------------------------
/// The segments of `s` between delimiters outside quotes, braces and brackets,
/// scanning from `i`; `parts` holds the bounds found so far.
pub open spec fn split_scan(
    s: Seq<char>,
    d: char,
    i: int,
    seg: int,
    in_q: bool,
    braces: int,
    brackets: int,
    parts: Seq<(int, int)>,
) -> Seq<(int, int)>
    decreases s.len() - i,
{
    if i < 0 || i >= s.len() {
        if seg < s.len() || parts.len() > 0 {
            parts.push((seg, s.len() as int))
        } else {
            parts
        }
    } else {
        let c = s[i];
        if c == '\\' && in_q && i + 1 < s.len() {
            split_scan(s, d, i + 2, seg, in_q, braces, brackets, parts)
        } else {
            let q = if c == '"' {
                !in_q
            } else {
                in_q
            };
            let br = if !q && c == '{' {
                braces + 1
            } else if !q && c == '}' {
                braces - 1
            } else {
                braces
            };
            let bk = if !q && c == '[' {
                brackets + 1
            } else if !q && c == ']' {
                brackets - 1
            } else {
                brackets
            };
            if c == d && !q && br == 0 && bk == 0 {
                split_scan(s, d, i + 1, i + 1, q, br, bk, parts.push((seg, i)))
            } else {
                split_scan(s, d, i + 1, seg, q, br, bk, parts)
            }
        }
    }
}

/// Segments found so far that tile `s` from its start: the first starts at 0,
/// each ends at a delimiter `d`, the next starts right after it, and `seg`
/// starts right after the last.
pub open spec fn tiles(s: Seq<char>, d: char, parts: Seq<(int, int)>, seg: int) -> bool {
    &&& (parts.len() == 0 ==> seg == 0)
    &&& (parts.len() > 0 ==> parts[0].0 == 0 && parts.last().1 + 1 == seg)
    &&& forall|k: int| 0 <= k < parts.len() ==> #[trigger] parts[k].1 < s.len() && s[parts[k].1] == d
    &&& forall|k: int| 0 < k < parts.len() ==> #[trigger] parts[k].0 == parts[k - 1].1 + 1
}

proof fn lemma_split_tiles(
    s: Seq<char>,
    d: char,
    i: int,
    seg: int,
    in_q: bool,
    braces: int,
    brackets: int,
    parts: Seq<(int, int)>,
)
    requires
        0 <= seg <= i,
        tiles(s, d, parts, seg),
    ensures
        ({
            let r = split_scan(s, d, i, seg, in_q, braces, brackets, parts);
            &&& r.len() == 0 ==> s.len() == 0
            &&& r.len() > 0 ==> r[0].0 == 0 && r.last().1 == s.len()
            &&& forall|k: int| 0 <= k < r.len() - 1 ==> #[trigger] r[k].1 < s.len() && s[r[k].1] == d
            &&& forall|k: int| 0 < k < r.len() ==> #[trigger] r[k].0 == r[k - 1].1 + 1
        }),
    decreases s.len() - i,
{
    if i < s.len() {
        let c = s[i];
        if c == '\\' && in_q && i + 1 < s.len() {
            lemma_split_tiles(s, d, i + 2, seg, in_q, braces, brackets, parts);
        } else {
            let q = if c == '"' {
                !in_q
            } else {
                in_q
            };
            let br = if !q && c == '{' {
                braces + 1
            } else if !q && c == '}' {
                braces - 1
            } else {
                braces
            };
            let bk = if !q && c == '[' {
                brackets + 1
            } else if !q && c == ']' {
                brackets - 1
            } else {
                brackets
            };
            if c == d && !q && br == 0 && bk == 0 {
                let p2 = parts.push((seg, i));
                assert(tiles(s, d, p2, i + 1)) by {
                    assert forall|k: int| 0 < k < p2.len() implies #[trigger] p2[k].0 == p2[k
                        - 1].1 + 1 by {
                        if k == p2.len() - 1 {
                            assert(p2[k - 1] == parts.last());
                        } else {
                            assert(p2[k] == parts[k] && p2[k - 1] == parts[k - 1]);
                        }
                    }
                    assert forall|k: int| 0 <= k < p2.len() implies #[trigger] p2[k].1 < s.len()
                        && s[p2[k].1] == d by {
                        if k < parts.len() {
                            assert(p2[k] == parts[k]);
                        }
                    }
                }
                lemma_split_tiles(s, d, i + 1, i + 1, q, br, bk, p2);
            } else {
                lemma_split_tiles(s, d, i + 1, seg, q, br, bk, parts);
            }
        }
    } else {
        if seg < s.len() || parts.len() > 0 {
            let r = parts.push((seg, s.len() as int));
            assert forall|k: int| 0 < k < r.len() implies #[trigger] r[k].0 == r[k - 1].1 + 1 by {
                if k == r.len() - 1 {
                    assert(r[k - 1] == parts.last());
                } else {
                    assert(r[k] == parts[k] && r[k - 1] == parts[k - 1]);
                }
            }
            assert forall|k: int| 0 <= k < r.len() - 1 implies #[trigger] r[k].1 < s.len()
                && s[r[k].1] == d by {
                assert(r[k] == parts[k]);
            }
        }
    }
}

/// The top-level segments of a text cover it: where it is empty there is
/// none; otherwise the first starts at its start, the last ends at its end,
/// and each other ends at a delimiter `d`, the next starting right after it.
/// So joining the segments with `d` gives the text back.
pub proof fn lemma_split_covers(s: Seq<char>, d: char)
    ensures
        ({
            let b = split_bounds(s, d);
            &&& s.len() == 0 ==> b.len() == 0
            &&& s.len() > 0 ==> b.len() > 0 && b[0].0 == 0 && b.last().1 == s.len()
            &&& forall|k: int| 0 <= k < b.len() - 1 ==> #[trigger] b[k].1 < s.len() && s[b[k].1] == d
            &&& forall|k: int| 0 < k < b.len() ==> #[trigger] b[k].0 == b[k - 1].1 + 1
        }),
{
    lemma_split_tiles(s, d, 0, 0, false, 0, 0, Seq::empty());
}

/// The bounds of the top-level segments of `s` separated by `d`.
pub open spec fn split_bounds(s: Seq<char>, d: char) -> Seq<(int, int)> {
    split_scan(s, d, 0, 0, false, 0, 0, Seq::empty())
}

/// The top-level segments of `s` separated by `d`.
pub open spec fn split_parts(s: Seq<char>, d: char) -> Seq<Seq<char>> {
    let b = split_bounds(s, d);
    Seq::new(b.len(), |k: int| s.subrange(b[k].0, b[k].1))
}

pub open spec fn bounds_ok(s: Seq<char>, parts: Seq<(int, int)>) -> bool {
    forall|k: int| 0 <= k < parts.len() ==> 0 <= (#[trigger] parts[k]).0 <= parts[k].1 <= s.len()
}

pub proof fn lemma_split_scan(
    s: Seq<char>,
    d: char,
    i: int,
    seg: int,
    in_q: bool,
    braces: int,
    brackets: int,
    parts: Seq<(int, int)>,
)
    requires
        0 <= seg <= i,
        seg <= s.len(),
        bounds_ok(s, parts),
    ensures
        bounds_ok(s, split_scan(s, d, i, seg, in_q, braces, brackets, parts)),
    decreases s.len() - i,
{
    if i < s.len() {
        let c = s[i];
        if c == '\\' && in_q && i + 1 < s.len() {
            lemma_split_scan(s, d, i + 2, seg, in_q, braces, brackets, parts);
        } else {
            let q = if c == '"' {
                !in_q
            } else {
                in_q
            };
            let br = if !q && c == '{' {
                braces + 1
            } else if !q && c == '}' {
                braces - 1
            } else {
                braces
            };
            let bk = if !q && c == '[' {
                brackets + 1
            } else if !q && c == ']' {
                brackets - 1
            } else {
                brackets
            };
            if c == d && !q && br == 0 && bk == 0 {
                assert(bounds_ok(s, parts.push((seg, i))));
                lemma_split_scan(s, d, i + 1, i + 1, q, br, bk, parts.push((seg, i)));
            } else {
                lemma_split_scan(s, d, i + 1, seg, q, br, bk, parts);
            }
        }
    } else {
        if seg < s.len() || parts.len() > 0 {
            assert(bounds_ok(s, parts.push((seg, s.len() as int))));
        }
    }
}

/// The bounds of the top-level segments of `s` separated by `d`.
pub fn split_top_level(s: &[char], d: char) -> (r: Vec<(usize, usize)>)
    ensures
        r@.len() == split_bounds(s@, d).len(),
        forall|k: int|
            0 <= k < r@.len() ==> (#[trigger] r@[k]).0 as int == split_bounds(s@, d)[k].0 && r@[k].1
                as int == split_bounds(s@, d)[k].1,
        bounds_ok(s@, split_bounds(s@, d)),
{
    proof {
        lemma_split_scan(s@, d, 0, 0, false, 0, 0, Seq::empty());
    }
    let n = s.len();
    let mut parts: Vec<(usize, usize)> = Vec::new();
    let mut seg: usize = 0;
    let mut in_quotes = false;
    // the depths are `b_open - b_close` and `k_open - k_close`
    let mut b_open: usize = 0;
    let mut b_close: usize = 0;
    let mut k_open: usize = 0;
    let mut k_close: usize = 0;
    let mut i: usize = 0;
    let ghost gparts: Seq<(int, int)> = Seq::empty();
    while i < n
        invariant
            n == s@.len(),
            seg <= i,
            seg <= n,
            b_open + b_close + k_open + k_close <= i,
            parts@.len() == gparts.len(),
            forall|k: int|
                0 <= k < parts@.len() ==> (#[trigger] parts@[k]).0 as int == gparts[k].0
                    && parts@[k].1 as int == gparts[k].1,
            split_bounds(s@, d) == split_scan(
                s@,
                d,
                i as int,
                seg as int,
                in_quotes,
                b_open as int - b_close as int,
                k_open as int - k_close as int,
                gparts,
            ),
        decreases n - i,
    {
        let c = s[i];
        if c == '\\' && in_quotes && i + 1 < n {
            i = i + 2;
            continue ;
        }
        if c == '"' {
            in_quotes = !in_quotes;
        }
        if !in_quotes {
            if c == '{' {
                b_open = b_open + 1;
            } else if c == '}' {
                b_close = b_close + 1;
            }
            if c == '[' {
                k_open = k_open + 1;
            } else if c == ']' {
                k_close = k_close + 1;
            }
        }
        if c == d && !in_quotes && b_open == b_close && k_open == k_close {
            parts.push((seg, i));
            proof {
                gparts = gparts.push((seg as int, i as int));
            }
            seg = i + 1;
            i = i + 1;
            continue ;
        }
        i = i + 1;
    }
    if seg < n || parts.len() > 0 {
        parts.push((seg, n));
        proof {
            gparts = gparts.push((seg as int, n as int));
        }
    }
    parts
}

// ---------------------------------------------------------------------------
// Numbers
// ---------------------------------------------------------------------------
pub open spec fn is_digit(c: char) -> bool {
    '0' <= c && c <= '9'
}

/// The end of the run of digits that starts at `i`.
pub open spec fn digits_end(s: Seq<char>, i: int) -> int
    decreases s.len() - i,
{
    if 0 <= i < s.len() && is_digit(s[i]) {
        digits_end(s, i + 1)
    } else {
        i
    }
}

pub proof fn lemma_digits_end(s: Seq<char>, i: int)
    requires
        0 <= i <= s.len(),
    ensures
        i <= digits_end(s, i) <= s.len(),
        forall|k: int| i <= k < digits_end(s, i) ==> is_digit(#[trigger] s[k]),
        digits_end(s, i) < s.len() ==> !is_digit(s[digits_end(s, i)]),
    decreases s.len() - i,
{
    if i < s.len() && is_digit(s[i]) {
        lemma_digits_end(s, i + 1);
    }
}

pub open spec fn digit_value(c: char) -> nat {
    ((c as u32) - ('0' as u32)) as nat
}

/// The value of a string of decimal digits.
pub open spec fn decimal_value(s: Seq<char>) -> nat
    decreases s.len(),
{
    if s.len() == 0 {
        0
    } else {
        decimal_value(s.drop_last()) * 10 + digit_value(s.last())
    }
}

pub proof fn lemma_decimal_value_mono(s: Seq<char>, k: int)
    requires
        0 <= k <= s.len(),
    ensures
        decimal_value(s.take(k)) <= decimal_value(s),
    decreases s.len() - k,
{
    if k < s.len() {
        lemma_decimal_value_mono(s, k + 1);
        assert(s.take(k + 1).drop_last() =~= s.take(k));
        assert(decimal_value(s.take(k + 1)) == decimal_value(s.take(k)) * 10 + digit_value(
            s.take(k + 1).last(),
        ));
    } else {
        assert(s.take(k) =~= s);
    }
}

/// Whether `s` is a valid exponent tail starting at `i`: nothing, or `e`/`E`,
/// an optional sign, and at least one digit to the end.
pub open spec fn exponent_ok(s: Seq<char>, i: int) -> bool {
    i == s.len() || (0 <= i < s.len() && (s[i] == 'e' || s[i] == 'E') && {
        let j = if i + 1 < s.len() && (s[i + 1] == '+' || s[i + 1] == '-') {
            i + 2
        } else {
            i + 1
        };
        digits_end(s, j) > j && digits_end(s, j) == s.len()
    })
}

/// `Digit+ | Digit+ '.' Digit* | Digit* '.' Digit+`, then an optional exponent.
pub open spec fn decimal_number(s: Seq<char>) -> bool {
    let a = digits_end(s, 0);
    if a < s.len() && s[a] == '.' {
        let b = digits_end(s, a + 1);
        (a > 0 || b > a + 1) && exponent_ok(s, b)
    } else {
        a > 0 && exponent_ok(s, a)
    }
}

pub open spec fn lower(c: char) -> char {
    if 'A' <= c && c <= 'Z' {
        (((c as u32) + 32) as u8) as char
    } else {
        c
    }
}

pub open spec fn eq_ignore_case(s: Seq<char>, w: Seq<char>) -> bool {
    s.len() == w.len() && forall|i: int| 0 <= i < s.len() ==> lower(#[trigger] s[i]) == w[i]
}

/// The text that `f64`'s `FromStr` accepts: an optional sign, then `inf`,
/// `infinity` or `nan` in any case, or a decimal number.
pub open spec fn float_literal(t: Seq<char>) -> bool {
    let s = if t.len() > 0 && (t[0] == '+' || t[0] == '-') {
        t.drop_first()
    } else {
        t
    };
    eq_ignore_case(s, seq!['i', 'n', 'f']) || eq_ignore_case(
        s,
        seq!['i', 'n', 'f', 'i', 'n', 'i', 't', 'y'],
    ) || eq_ignore_case(s, seq!['n', 'a', 'n']) || decimal_number(s)
}

/// The text that `i64`'s `FromStr` accepts: an optional sign and at least one
/// digit, the value within `i64`.
pub open spec fn i64_literal(t: Seq<char>) -> bool {
    let neg = t.len() > 0 && t[0] == '-';
    let p: int = if t.len() > 0 && (t[0] == '+' || t[0] == '-') {
        1
    } else {
        0
    };
    p < t.len() && digits_end(t, p) == t.len() && (if neg {
        decimal_value(t.subrange(p, t.len() as int)) <= 0x8000_0000_0000_0000
    } else {
        decimal_value(t.subrange(p, t.len() as int)) <= 0x7fff_ffff_ffff_ffff
    })
}

/// The number that `try_parse_number` reads from a token that starts with a
/// digit, a sign or a point: an integer that fits in `i64`, or else a float
/// (kept as its text) where `f64`'s `FromStr` accepts the token.
pub open spec fn parse_number(t: Seq<char>) -> Option<SpecValue> {
    let neg = t[0] == '-';
    let p: int = if neg || t[0] == '+' {
        1
    } else {
        0
    };
    if p >= t.len() {
        None
    } else if is_digit(t[p]) {
        let e = digits_end(t, p);
        let v = decimal_value(t.subrange(p, e));
        let as_float = if float_literal(t) {
            Some(SpecValue::Float(t))
        } else {
            None
        };
        if v > 0xffff_ffff_ffff_ffff {
            as_float
        } else if e == t.len() {
            if neg {
                if v > 0x8000_0000_0000_0000 {
                    as_float
                } else {
                    Some(SpecValue::Integer((-v) as i64))
                }
            } else {
                if v > 0x7fff_ffff_ffff_ffff {
                    as_float
                } else {
                    Some(SpecValue::Integer(v as i64))
                }
            }
        } else if t[e] == '.' || t[e] == 'e' || t[e] == 'E' {
            as_float
        } else {
            None
        }
    } else if t[p] == '.' {
        if float_literal(t) {
            Some(SpecValue::Float(t))
        } else {
            None
        }
    } else {
        None
    }
}

/// The end of the run of digits from `i`.
pub fn digits_end_exec(s: &[char], i: usize) -> (r: usize)
    requires
        i <= s@.len(),
    ensures
        r as int == digits_end(s@, i as int),
{
    proof {
        lemma_digits_end(s@, i as int);
    }
    let mut k = i;
    while k < s.len() && '0' <= s[k] && s[k] <= '9'
        invariant
            i <= k <= s@.len(),
            digits_end(s@, i as int) == digits_end(s@, k as int),
        decreases s.len() - k,
    {
        k = k + 1;
    }
    k
}

fn exponent_ok_exec(s: &[char], i: usize) -> (r: bool)
    requires
        i <= s@.len(),
    ensures
        r == exponent_ok(s@, i as int),
{
    if i == s.len() {
        return true;
    }
    if !(s[i] == 'e' || s[i] == 'E') {
        return false;
    }
    let j = if i + 1 < s.len() && (s[i + 1] == '+' || s[i + 1] == '-') {
        i + 2
    } else {
        i + 1
    };
    let k = digits_end_exec(s, j);
    k > j && k == s.len()
}

fn decimal_number_exec(s: &[char]) -> (r: bool)
    ensures
        r == decimal_number(s@),
{
    proof {
        lemma_digits_end(s@, 0);
    }
    let a = digits_end_exec(s, 0);
    if a < s.len() && s[a] == '.' {
        let b = digits_end_exec(s, a + 1);
        proof {
            lemma_digits_end(s@, a + 1);
        }
        (a > 0 || b > a + 1) && exponent_ok_exec(s, b)
    } else {
        a > 0 && exponent_ok_exec(s, a)
    }
}

fn lower_exec(c: char) -> (r: char)
    ensures
        r == lower(c),
{
    if 'A' <= c && c <= 'Z' {
        (((c as u32) + 32) as u8) as char
    } else {
        c
    }
}

fn eq_ignore_case_exec(s: &[char], w: &[char]) -> (r: bool)
    ensures
        r == eq_ignore_case(s@, w@),
{
    if s.len() != w.len() {
        return false;
    }
    let mut i: usize = 0;
    while i < s.len()
        invariant
            s@.len() == w@.len(),
            i <= s@.len(),
            forall|k: int| 0 <= k < i ==> lower(#[trigger] s@[k]) == w@[k],
        decreases s.len() - i,
    {
        if lower_exec(s[i]) != w[i] {
            return false;
        }
        i = i + 1;
    }
    true
}

/// Whether `f64`'s `FromStr` accepts `t`.
pub fn is_float_literal(t: &[char]) -> (r: bool)
    ensures
        r == float_literal(t@),
{
    let s = if t.len() > 0 && (t[0] == '+' || t[0] == '-') {
        slice_chars(t, 1, t.len())
    } else {
        slice_chars(t, 0, t.len())
    };
    proof {
        if t@.len() > 0 && (t@[0] == '+' || t@[0] == '-') {
            assert(s@ =~= t@.drop_first());
        } else {
            assert(s@ =~= t@);
        }
    }
    eq_ignore_case_exec(s.as_slice(), &['i', 'n', 'f']) || eq_ignore_case_exec(
        s.as_slice(),
        &['i', 'n', 'f', 'i', 'n', 'i', 't', 'y'],
    ) || eq_ignore_case_exec(s.as_slice(), &['n', 'a', 'n']) || decimal_number_exec(s.as_slice())
}

/// The value of the digits `s[a..b]`, unless it exceeds `u64::MAX`.
fn decimal_value_u64(s: &[char], a: usize, b: usize) -> (r: Option<u64>)
    requires
        a <= b <= s@.len(),
        forall|k: int| a <= k < b ==> is_digit(#[trigger] s@[k]),
    ensures
        match r {
            Some(v) => v as nat == decimal_value(s@.subrange(a as int, b as int)),
            None => decimal_value(s@.subrange(a as int, b as int)) > 0xffff_ffff_ffff_ffff,
        },
{
    let mut n: u64 = 0;
    let mut k = a;
    while k < b
        invariant
            a <= k <= b <= s@.len(),
            forall|j: int| a <= j < b ==> is_digit(#[trigger] s@[j]),
            n as nat == decimal_value(s@.subrange(a as int, k as int)),
        decreases b - k,
    {
        let d = ((s[k] as u32) - ('0' as u32)) as u64;
        proof {
            assert(is_digit(s@[k as int]));
            assert(s@.subrange(a as int, k + 1).drop_last() =~= s@.subrange(a as int, k as int));
        }
        match n.checked_mul(10) {
            Some(m) => match m.checked_add(d) {
                Some(v) => {
                    n = v;
                },
                None => {
                    proof {
                        assert(s@.subrange(a as int, k + 1) =~= s@.subrange(a as int, b as int).take(
                            (k + 1 - a) as int,
                        ));
                        lemma_decimal_value_mono(s@.subrange(a as int, b as int), (k + 1 - a) as int);
                    }
                    return None;
                },
            },
            None => {
                proof {
                    assert(s@.subrange(a as int, k + 1) =~= s@.subrange(a as int, b as int).take(
                        (k + 1 - a) as int,
                    ));
                    lemma_decimal_value_mono(s@.subrange(a as int, b as int), (k + 1 - a) as int);
                }
                return None;
            },
        }
        k = k + 1;
    }
    Some(n)
}

/// The number that a token starting with a digit, a sign or a point stands
/// for, if any.
pub fn try_parse_number(t: &[char]) -> (r: Option<crate::value::Value>)
    requires
        t@.len() > 0,
    ensures
        match r {
            Some(v) => parse_number(t@) == Some(v@),
            None => parse_number(t@) is None,
        },
{
    let len = t.len();
    let neg = t[0] == '-';
    let pos: usize = if neg || t[0] == '+' {
        1
    } else {
        0
    };
    if pos >= len {
        return None;
    }
    if '0' <= t[pos] && t[pos] <= '9' {
        let e = digits_end_exec(t, pos);
        proof {
            lemma_digits_end(t@, pos as int);
        }
        let as_float = is_float_literal(t);
        match decimal_value_u64(t, pos, e) {
            None => {
                if as_float {
                    return Some(crate::value::Value::Float(string_of(t)));
                }
                return None;
            },
            Some(n) => {
                if e == len {
                    if neg {
                        if n > 0x8000_0000_0000_0000 {
                            if as_float {
                                return Some(crate::value::Value::Float(string_of(t)));
                            }
                            return None;
                        }
                        let v: i64 = if n == 0x8000_0000_0000_0000 {
                            i64::MIN
                        } else {
                            -(n as i64)
                        };
                        return Some(crate::value::Value::Integer(v));
                    } else {
                        if n > 0x7fff_ffff_ffff_ffff {
                            if as_float {
                                return Some(crate::value::Value::Float(string_of(t)));
                            }
                            return None;
                        }
                        return Some(crate::value::Value::Integer(n as i64));
                    }
                }
                if t[e] == '.' || t[e] == 'e' || t[e] == 'E' {
                    if as_float {
                        return Some(crate::value::Value::Float(string_of(t)));
                    }
                    return None;
                }
                return None;
            },
        }
    }
    if t[pos] == '.' {
        if is_float_literal(t) {
            return Some(crate::value::Value::Float(string_of(t)));
        }
        return None;
    }
    None
}

/// The value that `usize`'s `FromStr` gives: an optional `+`, then at least one
/// digit, the value within `usize`.
pub open spec fn parse_usize(t: Seq<char>) -> Option<nat> {
    let p: int = if t.len() > 0 && t[0] == '+' {
        1
    } else {
        0
    };
    if p < t.len() && digits_end(t, p) == t.len() && decimal_value(t.subrange(p, t.len() as int))
        <= usize::MAX {
        Some(decimal_value(t.subrange(p, t.len() as int)))
    } else {
        None
    }
}

/// The value of a text that `u64`'s `FromStr` accepts: an optional `+`, then
/// decimal digits, the value at most `u64::MAX`.
pub open spec fn parse_u64(t: Seq<char>) -> Option<nat> {
    let p: int = if t.len() > 0 && t[0] == '+' {
        1
    } else {
        0
    };
    if p < t.len() && digits_end(t, p) == t.len() && decimal_value(t.subrange(p, t.len() as int))
        <= 0xffff_ffff_ffff_ffff {
        Some(decimal_value(t.subrange(p, t.len() as int)))
    } else {
        None
    }
}

/// `u64`'s `FromStr`, as `str::parse` gives it.
pub fn parse_u64_exec(t: &[char]) -> (r: Option<u64>)
    ensures
        match r {
            Some(v) => parse_u64(t@) == Some(v as nat),
            None => parse_u64(t@) is None,
        },
{
    let p: usize = if t.len() > 0 && t[0] == '+' {
        1
    } else {
        0
    };
    if p >= t.len() {
        return None;
    }
    let e = digits_end_exec(t, p);
    if e != t.len() {
        return None;
    }
    proof {
        lemma_digits_end(t@, p as int);
    }
    decimal_value_u64(t, p, e)
}

/// `usize`'s `FromStr`, as `str::parse` gives it.
pub fn parse_usize_exec(t: &[char]) -> (r: Option<usize>)
    ensures
        match r {
            Some(v) => parse_usize(t@) == Some(v as nat),
            None => parse_usize(t@) is None,
        },
{
    let p: usize = if t.len() > 0 && t[0] == '+' {
        1
    } else {
        0
    };
    if p >= t.len() {
        return None;
    }
    let e = digits_end_exec(t, p);
    if e != t.len() {
        return None;
    }
    proof {
        lemma_digits_end(t@, p as int);
    }
    match decimal_value_u64(t, p, e) {
        Some(v) => {
            if v as u128 > usize::MAX as u128 {
                None
            } else {
                Some(v as usize)
            }
        },
        None => None,
    }
}

/// Whether `i64`'s `FromStr` accepts `t`.
pub fn is_i64_literal(t: &[char]) -> (r: bool)
    ensures
        r == i64_literal(t@),
{
    let neg = t.len() > 0 && t[0] == '-';
    let p: usize = if t.len() > 0 && (t[0] == '+' || t[0] == '-') {
        1
    } else {
        0
    };
    if p >= t.len() {
        return false;
    }
    let e = digits_end_exec(t, p);
    if e != t.len() {
        return false;
    }
    proof {
        lemma_digits_end(t@, p as int);
    }
    match decimal_value_u64(t, p, e) {
        Some(v) => {
            if neg {
                v <= 0x8000_0000_0000_0000
            } else {
                v <= 0x7fff_ffff_ffff_ffff
            }
        },
        None => false,
    }
}

} // verus!
