//! Values written on one line: primitives, inline arrays `[a, b]`, inline
//! objects `{k: v}`, delimited lists, keys and array headers `key[n]{f}: ...`.
use vstd::prelude::*;
use crate::syntax::{
    bounds_ok, brace_content, bracket_scan, closing_quote, extract_brace_content,
    find_closing_quote, find_key_colon, find_matching_bracket, is_digit, key_colon,
    lemma_brace_scan, lemma_bracket_scan, lemma_key_colon, lemma_split_scan, parse_number,
    parse_usize, parse_usize_exec, split_bounds, split_top_level, try_parse_number, unescape,
    unescape_string,
};
use crate::text::{
    chars_eq, find, find_char, find_char_from, find_from, has_prefix, has_suffix, lead_ws,
    lemma_find_from, lemma_lead_ws, lemma_trail_ws,
    slice_chars, starts_with, ends_with, string_of, trail_ws, trim, trim_bounds, trim_chars,
    trim_range,
};
use crate::value::{
    lemma_view_values, lemma_view_values_push, map_insert, view_values, SconMap, SpecValue, Value,
};

verus! {

/// Trimming never lengthens a sequence.
pub proof fn lemma_trim_len(s: Seq<char>)
    ensures
        trim(s).len() <= s.len(),
        trim(s).len() > 0 ==> !crate::text::is_ws(trim(s)[0]),
{
    lemma_lead_ws(s, 0);
    lemma_trail_ws(s, lead_ws(s, 0), s.len() as int);
}

// ---------------------------------------------------------------------------
// Primitives
// ---------------------------------------------------------------------------
pub open spec fn starts_like_number(c: char) -> bool {
    is_digit(c) || c == '+' || c == '-' || c == '.'
}

/// The primitive that a token stands for: the empty string, `[]`, `{}`, a
/// quoted string (up to its closing quote), `true`, `false`, `null`, a number,
/// or else the trimmed token as a string.
pub open spec fn primitive_of(token: Seq<char>) -> SpecValue {
    let t = trim(token);
    if t.len() == 0 {
        SpecValue::Str(Seq::empty())
    } else if t == seq!['[', ']'] {
        SpecValue::Array(Seq::empty())
    } else if t == seq!['{', '}'] {
        SpecValue::Object(Seq::empty())
    } else if t[0] == '"' && closing_quote(t, 0) is Some {
        SpecValue::Str(unescape(t.subrange(1, closing_quote(t, 0)->0)))
    } else if t == seq!['t', 'r', 'u', 'e'] {
        SpecValue::Bool(true)
    } else if t == seq!['f', 'a', 'l', 's', 'e'] {
        SpecValue::Bool(false)
    } else if t == seq!['n', 'u', 'l', 'l'] {
        SpecValue::Null
    } else if starts_like_number(t[0]) && parse_number(t) is Some {
        parse_number(t)->0
    } else {
        SpecValue::Str(t)
    }
}

/// The primitive that a token stands for.
pub fn parse_primitive(token: &[char]) -> (r: Value)
    ensures
        r@ == primitive_of(token@),
{
    let t = trim_chars(token);
    if t.len() == 0 {
        return Value::String(String::new());
    }
    if chars_eq(t.as_slice(), &['[', ']']) {
        proof {
            lemma_view_values(Seq::<Value>::empty());
        }
        return Value::Array(Vec::new());
    }
    if chars_eq(t.as_slice(), &['{', '}']) {
        return Value::Object(SconMap::new());
    }
    if t[0] == '"' {
        if let Some(close) = find_closing_quote(t.as_slice(), 0) {
            let inner = slice_chars(t.as_slice(), 1, close);
            let u = unescape_string(inner.as_slice());
            return Value::String(string_of(u.as_slice()));
        }
    }
    if chars_eq(t.as_slice(), &['t', 'r', 'u', 'e']) {
        return Value::Bool(true);
    }
    if chars_eq(t.as_slice(), &['f', 'a', 'l', 's', 'e']) {
        return Value::Bool(false);
    }
    if chars_eq(t.as_slice(), &['n', 'u', 'l', 'l']) {
        return Value::Null;
    }
    let first = t[0];
    if ('0' <= first && first <= '9') || first == '+' || first == '-' || first == '.' {
        if let Some(v) = try_parse_number(t.as_slice()) {
            return v;
        }
    }
    Value::String(string_of(t.as_slice()))
}

/// The primitives between top-level delimiters.
pub open spec fn delimited_of(input: Seq<char>, d: char) -> Seq<SpecValue> {
    let b = split_bounds(input, d);
    Seq::new(b.len(), |k: int| primitive_of(input.subrange(b[k].0, b[k].1)))
}

/// The primitives between top-level delimiters.
pub fn parse_delimited_values(input: &[char], d: char) -> (r: Vec<Value>)
    ensures
        view_values(r@) == delimited_of(input@, d),
{
    let parts = split_top_level(input, d);
    let ghost b = split_bounds(input@, d);
    let mut out: Vec<Value> = Vec::new();
    let mut k: usize = 0;
    proof {
        lemma_view_values(out@);
    }
    while k < parts.len()
        invariant
            k <= parts@.len() == b.len(),
            b == split_bounds(input@, d),
            bounds_ok(input@, b),
            forall|t: int|
                0 <= t < parts@.len() ==> (#[trigger] parts@[t]).0 as int == b[t].0 && parts@[t].1
                    as int == b[t].1,
            view_values(out@) =~= delimited_of(input@, d).take(k as int),
        decreases parts.len() - k,
    {
        let (a, e) = parts[k];
        proof {
            assert(parts@[k as int].0 as int == b[k as int].0);
        }
        let piece = slice_chars(input, a, e);
        let v = parse_primitive(piece.as_slice());
        let ghost before = out@;
        out.push(v);
        proof {
            lemma_view_values_push(before, v);
            assert(delimited_of(input@, d).take(k + 1) =~= delimited_of(input@, d).take(k as int).push(
                primitive_of(input@.subrange(b[k as int].0, b[k as int].1)),
            ));
        }
        k = k + 1;
    }
    out
}

// ---------------------------------------------------------------------------
// Inline values and objects
// ---------------------------------------------------------------------------
/// A value written inline: `""`-like empty, `[]`, `{}`, an inline object
/// `{k: v, ...}`, an inline array `[a, b, ...]`, or a primitive.
pub open spec fn inline_value(input: Seq<char>) -> SpecValue
    decreases input.len(), 0int,
{
    let t = trim(input);
    proof {
        lemma_trim_len(input);
        lemma_brace_scan(t, 0, 0, None, false);
    }
    if t.len() == 0 {
        SpecValue::Str(Seq::empty())
    } else if t == seq!['[', ']'] {
        SpecValue::Array(Seq::empty())
    } else if t == seq!['{', '}'] {
        SpecValue::Object(Seq::empty())
    } else if t[0] == '{' && brace_content(t) is Some {
        let (a, b) = brace_content(t)->0;
        let inner = t.subrange(a, b);
        SpecValue::Object(inline_entries(inner, split_bounds(inner, ',').len()))
    } else if t[0] == '[' && bracket_scan(t, 0, 0, false) is Some {
        let close = bracket_scan(t, 0, 0, false)->0;
        if 1 <= close {
            SpecValue::Array(delimited_of(t.subrange(1, close), ','))
        } else {
            primitive_of(t)
        }
    } else {
        primitive_of(t)
    }
}

/// The entries of an inline object from its first `k` top-level parts: each
/// part with a key colon inserts its unquoted key and inline value.
pub open spec fn inline_entries(inner: Seq<char>, k: nat) -> Seq<(Seq<char>, SpecValue)>
    decreases inner.len(), k,
{
    let b = split_bounds(inner, ',');
    proof {
        lemma_split_scan(inner, ',', 0, 0, false, 0, 0, Seq::empty());
    }
    if k == 0 || k > b.len() {
        Seq::empty()
    } else {
        let acc = inline_entries(inner, (k - 1) as nat);
        let part = trim(inner.subrange(b[k - 1].0, b[k - 1].1));
        proof {
            lemma_trim_len(inner.subrange(b[k - 1].0, b[k - 1].1));
            lemma_key_colon(part);
        }
        if part.len() == 0 {
            acc
        } else {
            match key_colon(part) {
                Some(c) => {
                    let rest = trim(part.subrange(c + 1, part.len() as int));
                    proof {
                        lemma_trim_len(part.subrange(c + 1, part.len() as int));
                    }
                    map_insert(
                        acc,
                        unquote(trim(part.subrange(0, c))),
                        inline_value(rest),
                    )
                },
                None => acc,
            }
        }
    }
}

/// A key with surrounding quotes removed and its escapes resolved.
pub open spec fn unquote(s: Seq<char>) -> Seq<char> {
    let t = trim(s);
    if t.len() >= 2 && t[0] == '"' && t.last() == '"' {
        unescape(t.subrange(1, t.len() - 1))
    } else {
        t
    }
}

/// A key with surrounding quotes removed and its escapes resolved.
pub fn unquote_key(s: &[char]) -> (r: Vec<char>)
    ensures
        r@ == unquote(s@),
{
    let t = trim_chars(s);
    if t.len() >= 2 && t[0] == '"' && t[t.len() - 1] == '"' {
        let inner = slice_chars(t.as_slice(), 1, t.len() - 1);
        unescape_string(inner.as_slice())
    } else {
        t
    }
}

/// A value written inline.
pub fn parse_inline_value(input: &[char]) -> (r: Value)
    ensures
        r@ == inline_value(input@),
    decreases input@.len(),
{
    let t = trim_chars(input);
    proof {
        lemma_trim_len(input@);
    }
    if t.len() == 0 {
        return Value::String(String::new());
    }
    if chars_eq(t.as_slice(), &['[', ']']) {
        proof {
            lemma_view_values(Seq::<Value>::empty());
        }
        return Value::Array(Vec::new());
    }
    if chars_eq(t.as_slice(), &['{', '}']) {
        return Value::Object(SconMap::new());
    }
    if t[0] == '{' {
        if let Some((a, b)) = extract_brace_content(t.as_slice()) {
            let inner = slice_chars(t.as_slice(), a, b);
            let obj = parse_inline_object(inner.as_slice());
            return Value::Object(obj);
        }
    }
    if t[0] == '[' {
        if let Some(close) = find_matching_bracket(t.as_slice(), 0) {
            if 1 <= close {
                let inner = slice_chars(t.as_slice(), 1, close);
                let items = parse_delimited_values(inner.as_slice(), ',');
                return Value::Array(items);
            }
        }
    }
    parse_primitive(t.as_slice())
}

/// The entries of an inline object.
pub fn parse_inline_object(inner: &[char]) -> (r: SconMap)
    ensures
        r@ == inline_entries(inner@, split_bounds(inner@, ',').len()),
    decreases inner@.len(),
{
    let parts = split_top_level(inner, ',');
    let ghost b = split_bounds(inner@, ',');
    let mut result = SconMap::new();
    let mut k: usize = 0;
    while k < parts.len()
        invariant
            k <= parts@.len() == b.len(),
            b == split_bounds(inner@, ','),
            bounds_ok(inner@, b),
            forall|t: int|
                0 <= t < parts@.len() ==> (#[trigger] parts@[t]).0 as int == b[t].0 && parts@[t].1
                    as int == b[t].1,
            result@ == inline_entries(inner@, k as nat),
        decreases parts.len() - k,
    {
        let (a, e) = parts[k];
        proof {
            assert(parts@[k as int].0 as int == b[k as int].0);
        }
        let part = trim_range(inner, a, e);
        proof {
            lemma_trim_len(inner@.subrange(a as int, e as int));
            lemma_key_colon(part@);
        }
        if part.len() > 0 {
            if let Some(colon) = find_key_colon(part.as_slice()) {
                let key_raw = trim_range(part.as_slice(), 0, colon);
                let key = unquote_key(key_raw.as_slice());
                let rest = trim_range(part.as_slice(), colon + 1, part.len());
                proof {
                    lemma_trim_len(part@.subrange(colon + 1, part@.len() as int));
                }
                let val = parse_inline_value(rest.as_slice());
                result.insert(string_of(key.as_slice()), val);
            }
        }
        k = k + 1;
    }
    result
}

// ---------------------------------------------------------------------------
// Keys
// ---------------------------------------------------------------------------
/// Why a line cannot be decoded.
pub enum DecodeError {
    UnterminatedQuotedKey,
    MissingColonAfterKey,
}

/// The key at the start of `content` and where its value begins: a quoted key
/// must close and be followed at once by `:`; an unquoted key ends at the first
/// colon.
pub open spec fn key_of(content: Seq<char>) -> Result<(Seq<char>, int), DecodeError> {
    if content.len() > 0 && content[0] == '"' {
        match closing_quote(content, 0) {
            None => Err(DecodeError::UnterminatedQuotedKey),
            Some(close) => if close + 1 >= content.len() || content[close + 1] != ':' {
                Err(DecodeError::MissingColonAfterKey)
            } else {
                Ok((unescape(content.subrange(1, close)), close + 2))
            },
        }
    } else {
        let colon = find(content, ':');
        if colon < 0 {
            Err(DecodeError::MissingColonAfterKey)
        } else {
            Ok((trim(content.subrange(0, colon)), colon + 1))
        }
    }
}

pub proof fn lemma_key_of(content: Seq<char>)
    ensures
        key_of(content) matches Ok((k, e)) ==> 1 <= e <= content.len(),
{
    if content.len() > 0 && content[0] == '"' {
        crate::syntax::lemma_quote_scan(content, 1);
    } else {
        lemma_find_from(content, ':', 0);
    }
}

/// The key at the start of `content` and where its value begins.
pub fn parse_key(content: &[char]) -> (r: Result<(Vec<char>, usize), DecodeError>)
    ensures
        match r {
            Ok((k, e)) => key_of(content@) == Ok::<(Seq<char>, int), DecodeError>((k@, e as int)),
            Err(err) => key_of(content@) == Err::<(Seq<char>, int), DecodeError>(err),
        },
        r matches Ok((k, e)) ==> 1 <= e <= content@.len(),
{
    proof {
        lemma_key_of(content@);
    }
    if content.len() > 0 && content[0] == '"' {
        match find_closing_quote(content, 0) {
            None => Err(DecodeError::UnterminatedQuotedKey),
            Some(close) => {
                if close + 1 >= content.len() || content[close + 1] != ':' {
                    Err(DecodeError::MissingColonAfterKey)
                } else {
                    let inner = slice_chars(content, 1, close);
                    Ok((unescape_string(inner.as_slice()), close + 2))
                }
            },
        }
    } else {
        proof {
            lemma_find_from(content@, ':', 0);
        }
        match find_char(content, ':') {
            None => Err(DecodeError::MissingColonAfterKey),
            Some(colon) => Ok((trim_range(content, 0, colon), colon + 1)),
        }
    }
}

// ---------------------------------------------------------------------------
// Array headers
// ---------------------------------------------------------------------------
/// An array header `key[n]{fields}: inline`, `[n|]`/`[n\t]` choosing the
/// delimiter.
pub struct HeaderModel {
    pub key: Option<Seq<char>>,
    pub length: nat,
    pub delimiter: char,
    pub fields: Option<Seq<Seq<char>>>,
    pub inline_values: Option<Seq<char>>,
}

/// The trimmed parts of a field list.
pub open spec fn trimmed_parts(s: Seq<char>, d: char) -> Seq<Seq<char>> {
    let b = split_bounds(s, d);
    Seq::new(b.len(), |k: int| trim(s.subrange(b[k].0, b[k].1)))
}

/// The array header of a line: the key before `[` (without surrounding quotes),
/// the length in the brackets (0 where it is no number), a `|` or tab before
/// `]` choosing the delimiter, the fields in `{...}` right after `]`, and what
/// follows the first colon after the header (after `]`, or after the field
/// list).
pub open spec fn header_of(content: Seq<char>) -> Option<HeaderModel> {
    let bs = find(content, '[');
    if bs < 0 {
        None
    } else {
        let key = if bs > 0 {
            let raw = trim(content.subrange(0, bs));
            if raw.len() >= 2 && raw[0] == '"' && raw.last() == '"' {
                Some(raw.subrange(1, raw.len() - 1))
            } else {
                Some(raw)
            }
        } else {
            None::<Seq<char>>
        };
        let be = find_from(content, ']', bs);
        if be < 0 {
            None
        } else {
            let bc = content.subrange(bs + 1, be);
            let (delimiter, digits) = if bc.len() > 0 && bc.last() == '\t' {
                ('\t', bc.drop_last())
            } else if bc.len() > 0 && bc.last() == '|' {
                ('|', bc.drop_last())
            } else {
                (',', bc)
            };
            let length: nat = match parse_usize(digits) {
                Some(v) => v,
                None => 0,
            };
            let after = content.subrange(be + 1, content.len() as int);
            let has_fields = after.len() > 0 && after[0] == '{' && find(after, '}') >= 0;
            let fields = if has_fields {
                Some(trimmed_parts(after.subrange(1, find(after, '}')), delimiter))
            } else {
                None::<Seq<Seq<char>>>
            };
            let head_end = if has_fields {
                be + 2 + find(after, '}')
            } else {
                be + 1
            };
            let colon = find_from(content, ':', head_end);
            if colon < 0 {
                None
            } else {
                let after_colon = trim(content.subrange(colon + 1, content.len() as int));
                Some(
                    HeaderModel {
                        key,
                        length,
                        delimiter,
                        fields,
                        inline_values: if after_colon.len() > 0 {
                            Some(after_colon)
                        } else {
                            None
                        },
                    },
                )
            }
        }
    }
}

/// A line is taken for an array header only where its first `[` comes before
/// its first colon.
pub open spec fn try_header_of(content: Seq<char>) -> Option<HeaderModel> {
    let bs = find(content, '[');
    let colon = find(content, ':');
    if bs < 0 || colon < 0 || bs >= colon {
        None
    } else {
        header_of(content)
    }
}

/// An array header.
pub struct ArrayHeader {
    pub key: Option<Vec<char>>,
    pub length: usize,
    pub delimiter: char,
    pub fields: Option<Vec<Vec<char>>>,
    pub inline_values: Option<Vec<char>>,
}

pub open spec fn char_vecs_view(v: Seq<Vec<char>>) -> Seq<Seq<char>> {
    Seq::new(v.len(), |i: int| v[i]@)
}

impl View for ArrayHeader {
    type V = HeaderModel;

    open spec fn view(&self) -> HeaderModel {
        HeaderModel {
            key: match self.key {
                Some(k) => Some(k@),
                None => None,
            },
            length: self.length as nat,
            delimiter: self.delimiter,
            fields: match self.fields {
                Some(f) => Some(char_vecs_view(f@)),
                None => None,
            },
            inline_values: match self.inline_values {
                Some(v) => Some(v@),
                None => None,
            },
        }
    }
}

/// The trimmed parts of a field list.
fn split_trimmed(s: &[char], d: char) -> (r: Vec<Vec<char>>)
    ensures
        char_vecs_view(r@) == trimmed_parts(s@, d),
{
    let parts = split_top_level(s, d);
    let ghost b = split_bounds(s@, d);
    let mut out: Vec<Vec<char>> = Vec::new();
    let mut k: usize = 0;
    while k < parts.len()
        invariant
            k <= parts@.len() == b.len(),
            b == split_bounds(s@, d),
            bounds_ok(s@, b),
            forall|t: int|
                0 <= t < parts@.len() ==> (#[trigger] parts@[t]).0 as int == b[t].0 && parts@[t].1
                    as int == b[t].1,
            char_vecs_view(out@) =~= trimmed_parts(s@, d).take(k as int),
        decreases parts.len() - k,
    {
        let (a, e) = parts[k];
        proof {
            assert(parts@[k as int].0 as int == b[k as int].0);
        }
        let x = trim_range(s, a, e);
        let ghost before = out@;
        out.push(x);
        proof {
            assert(out@ == before.push(x));
            assert(char_vecs_view(out@) =~= char_vecs_view(before).push(x@));
            assert(trimmed_parts(s@, d).take(k + 1) =~= trimmed_parts(s@, d).take(k as int).push(
                x@,
            ));
        }
        k = k + 1;
    }
    out
}

/// The array header of a line.
pub fn parse_array_header(content: &[char]) -> (r: Option<ArrayHeader>)
    ensures
        match r {
            Some(h) => header_of(content@) == Some(h@),
            None => header_of(content@) is None,
        },
        r matches Some(h) ==> (h.delimiter == ',' || h.delimiter == '|' || h.delimiter == '\t'),
{
    proof {
        lemma_find_from(content@, '[', 0);
    }
    let bs = match find_char(content, '[') {
        Some(b) => b,
        None => {
            return None;
        },
    };
    let key = if bs > 0 {
        let raw = trim_range(content, 0, bs);
        if raw.len() >= 2 && raw[0] == '"' && raw[raw.len() - 1] == '"' {
            Some(slice_chars(raw.as_slice(), 1, raw.len() - 1))
        } else {
            Some(raw)
        }
    } else {
        None
    };
    proof {
        lemma_find_from(content@, ']', bs as int);
    }
    let be = match find_char_from(content, ']', bs) {
        Some(e) => e,
        None => {
            return None;
        },
    };
    let bc = slice_chars(content, bs + 1, be);
    let (delimiter, digits) = if bc.len() > 0 && bc[bc.len() - 1] == '\t' {
        ('\t', slice_chars(bc.as_slice(), 0, bc.len() - 1))
    } else if bc.len() > 0 && bc[bc.len() - 1] == '|' {
        ('|', slice_chars(bc.as_slice(), 0, bc.len() - 1))
    } else {
        (',', bc)
    };
    proof {
        if bc@.len() > 0 && (bc@.last() == '\t' || bc@.last() == '|') {
            assert(digits@ =~= bc@.drop_last());
        }
    }
    let length: usize = match parse_usize_exec(digits.as_slice()) {
        Some(v) => v,
        None => 0,
    };
    assert(be < content.len());
    let after = slice_chars(content, be + 1, content.len());
    let mut fields: Option<Vec<Vec<char>>> = None;
    let mut head_end: usize = be + 1;
    if after.len() > 0 && after[0] == '{' {
        proof {
            lemma_find_from(after@, '}', 0);
        }
        if let Some(brace_end) = find_char(after.as_slice(), '}') {
            let fields_str = slice_chars(after.as_slice(), 1, brace_end);
            fields = Some(split_trimmed(fields_str.as_slice(), delimiter));
            head_end = be + 2 + brace_end;
        }
    }
    proof {
        lemma_find_from(content@, ':', head_end as int);
    }
    let colon = match find_char_from(content, ':', head_end) {
        Some(c) => c,
        None => {
            return None;
        },
    };
    let after_colon = trim_range(content, colon + 1, content.len());
    let inline_values = if after_colon.len() > 0 {
        Some(after_colon)
    } else {
        None
    };
    let h = ArrayHeader { key, length, delimiter, fields, inline_values };
    proof {
        assert(header_of(content@) == Some(h@));
    }
    Some(h)
}

/// The array header of a line whose first `[` comes before its first colon.
pub fn try_array_header(content: &[char]) -> (r: Option<ArrayHeader>)
    ensures
        match r {
            Some(h) => try_header_of(content@) == Some(h@),
            None => try_header_of(content@) is None,
        },
        r matches Some(h) ==> (h.delimiter == ',' || h.delimiter == '|' || h.delimiter == '\t'),
{
    let bs = match find_char(content, '[') {
        Some(b) => b,
        None => {
            return None;
        },
    };
    let colon = match find_char(content, ':') {
        Some(c) => c,
        None => {
            return None;
        },
    };
    if bs >= colon {
        return None;
    }
    parse_array_header(content)
}

/// Whether something other than whitespace follows the key colon of a line.
pub open spec fn inline_after_colon(s: Seq<char>) -> bool {
    match key_colon(s) {
        Some(c) => trim(s.subrange(c + 1, s.len() as int)).len() > 0,
        None => false,
    }
}

/// Whether something other than whitespace follows the key colon of a line.
pub fn has_inline_value_after_colon(s: &[char]) -> (r: bool)
    ensures
        r == inline_after_colon(s@),
{
    match find_key_colon(s) {
        Some(colon) => {
            assert(colon < s.len());
            let after = trim_range(s, colon + 1, s.len());
            after.len() > 0
        },
        None => false,
    }
}

} // verus!
