//! How lines at their depths make up objects, arrays and list items.
use vstd::prelude::*;
use crate::inline::{
    char_vecs_view, delimited_of, inline_value, key_of, parse_delimited_values, parse_inline_value,
    parse_key, parse_primitive, primitive_of, try_array_header, try_header_of, ArrayHeader,
    DecodeError, HeaderModel,
};
use crate::syntax::{find_key_colon, key_colon};
use crate::text::{
    chars_eq, contains_char, has_char, has_prefix, slice_chars, starts_with, string_of, trim,
    trim_range,
};
use crate::value::{
    lemma_view_values, lemma_view_values_push, map_insert, view_values, SconMap, SpecValue, Value,
};

verus! {

/// A line of a document: its depth and its trimmed content.
pub struct LineModel {
    pub depth: nat,
    pub content: Seq<char>,
}

pub type Entries = Seq<(Seq<char>, SpecValue)>;

pub open spec fn dash() -> Seq<char> {
    seq!['-', ' ']
}

/// What follows the `- ` of a list item line.
pub open spec fn item_content(s: Seq<char>) -> Seq<char> {
    if s.len() >= 2 {
        s.subrange(2, s.len() as int)
    } else {
        Seq::empty()
    }
}

/// The first line at or after `i` that is not deeper than `base`.
pub open spec fn skip_deeper(lines: Seq<LineModel>, base: nat, i: int) -> int
    decreases lines.len() - i,
{
    if 0 <= i < lines.len() && lines[i].depth > base {
        skip_deeper(lines, base, i + 1)
    } else {
        i
    }
}

pub proof fn lemma_skip_deeper(lines: Seq<LineModel>, base: nat, i: int)
    requires
        0 <= i <= lines.len(),
    ensures
        i <= skip_deeper(lines, base, i) <= lines.len(),
    decreases lines.len() - i,
{
    if i < lines.len() && lines[i].depth > base {
        lemma_skip_deeper(lines, base, i + 1);
    }
}

// ---------------------------------------------------------------------------
// Tabular rows
// ---------------------------------------------------------------------------
/// The first `k` cells of a row: `fields[j]` takes the `j`-th value, or null
/// where the row has fewer values.
pub open spec fn row_entries(fields: Seq<Seq<char>>, vals: Seq<SpecValue>, k: nat) -> Entries
    decreases k,
{
    if k == 0 || k > fields.len() {
        Seq::empty()
    } else {
        map_insert(
            row_entries(fields, vals, (k - 1) as nat),
            fields[k - 1],
            if k - 1 < vals.len() {
                vals[k - 1]
            } else {
                SpecValue::Null
            },
        )
    }
}

/// The rows of a tabular array from line `i`: lines one level deeper than the
/// header, at most `expected` of them.
pub open spec fn tabular_rows(
    lines: Seq<LineModel>,
    base: nat,
    i: int,
    expected: nat,
    fields: Seq<Seq<char>>,
    d: char,
    rows: Seq<SpecValue>,
) -> Seq<SpecValue>
    decreases lines.len() - i,
{
    if i < 0 || i >= lines.len() || rows.len() >= expected || lines[i].depth != base + 1 {
        rows
    } else {
        tabular_rows(
            lines,
            base,
            i + 1,
            expected,
            fields,
            d,
            rows.push(
                SpecValue::Object(
                    row_entries(fields, delimited_of(lines[i].content, d), fields.len()),
                ),
            ),
        )
    }
}

// ---------------------------------------------------------------------------
// Objects, arrays, list items
// ---------------------------------------------------------------------------
/// The entries of an object whose lines are at depth `base`, from line `i`.
pub open spec fn object_lines(lines: Seq<LineModel>, base: nat, i: int, acc: Entries) -> Result<
    Entries,
    DecodeError,
>
    decreases lines.len() - i, 5int,
{
    if i < 0 || i >= lines.len() || lines[i].depth < base {
        Ok(acc)
    } else if lines[i].depth > base {
        object_lines(lines, base, i + 1, acc)
    } else {
        let content = lines[i].content;
        let h = try_header_of(content);
        if h is Some && h->0.key is Some {
            match array_lines(lines, i, h->0) {
                Err(e) => Err(e),
                Ok(v) => {
                    let j = skip_deeper(lines, base, i + 1);
                    proof {
                        lemma_skip_deeper(lines, base, i + 1);
                    }
                    if j > i {
                        object_lines(lines, base, j, map_insert(acc, h->0.key->0, v))
                    } else {
                        Ok(acc)
                    }
                },
            }
        } else {
            match key_colon(content) {
                Some(c) => match key_value_lines(lines, i, base, c) {
                    Err(e) => Err(e),
                    Ok((k, v, next)) => if i < next <= lines.len() {
                        object_lines(lines, base, next, map_insert(acc, k, v))
                    } else {
                        Ok(acc)
                    },
                },
                None => object_lines(lines, base, i + 1, acc),
            }
        }
    }
}

/// The key, value and next line of the entry at line `index`, whose key ends at
/// `colon`: an inline value, a list of `- ` items, a nested object, or an empty
/// object.
pub open spec fn key_value_lines(lines: Seq<LineModel>, index: int, base: nat, colon: int) -> Result<
    (Seq<char>, SpecValue, int),
    DecodeError,
>
    decreases lines.len() - index, 3int,
{
    if index < 0 || index >= lines.len() {
        Err(DecodeError::MissingColonAfterKey)
    } else {
        let content = lines[index].content;
        let kr = if content.len() > 0 && content[0] == '"' {
            key_of(content)
        } else if 0 <= colon < content.len() {
            Ok((trim(content.subrange(0, colon)), colon + 1))
        } else {
            Err(DecodeError::MissingColonAfterKey)
        };
        match kr {
            Err(e) => Err(e),
            Ok((key, key_end)) => {
                let rest = if 0 <= key_end <= content.len() {
                    trim(content.subrange(key_end, content.len() as int))
                } else {
                    Seq::empty()
                };
                if rest.len() > 0 {
                    Ok((key, inline_value(rest), index + 1))
                } else if index + 1 < lines.len() && lines[index + 1].depth > base {
                    if lines[index + 1].depth == base + 1 && starts_with(
                        lines[index + 1].content,
                        dash(),
                    ) {
                        match item_lines(lines, base, index + 1, Seq::empty()) {
                            Err(e) => Err(e),
                            Ok((items, j)) => Ok((key, SpecValue::Array(items), j)),
                        }
                    } else {
                        match object_lines(lines, base + 1, index + 1, Seq::empty()) {
                            Err(e) => Err(e),
                            Ok(obj) => Ok(
                                (key, SpecValue::Object(obj), skip_deeper(lines, base, index + 1)),
                            ),
                        }
                    }
                } else {
                    Ok((key, SpecValue::Object(Seq::empty()), index + 1))
                }
            },
        }
    }
}

/// The items of a list without header, from line `j`: the `- ` lines one level
/// deeper than `base`, up to the first line not deeper than `base`.
pub open spec fn item_lines(lines: Seq<LineModel>, base: nat, j: int, items: Seq<SpecValue>) -> Result<
    (Seq<SpecValue>, int),
    DecodeError,
>
    decreases lines.len() - j, 4int,
{
    if j < 0 || j >= lines.len() || lines[j].depth < base + 1 {
        Ok((items, j))
    } else if lines[j].depth == base + 1 && starts_with(lines[j].content, dash()) {
        let item = item_content(lines[j].content);
        if contains_char(item, ':') {
            match list_item_lines(lines, j, base) {
                Err(e) => Err(e),
                Ok(obj) => item_lines(lines, base, j + 1, items.push(SpecValue::Object(obj))),
            }
        } else {
            item_lines(lines, base, j + 1, items.push(inline_value(item)))
        }
    } else {
        item_lines(lines, base, j + 1, items)
    }
}

/// The entries of the object that a `- ` line at `index` starts, its array
/// being at depth `base`: the first entry on the `- ` line, the others two
/// levels deeper than `base`.
pub open spec fn list_item_lines(lines: Seq<LineModel>, index: int, base: nat) -> Result<
    Entries,
    DecodeError,
>
    decreases lines.len() - index, 3int,
{
    if index < 0 || index >= lines.len() {
        Ok(Seq::empty())
    } else {
        let item = item_content(lines[index].content);
        let cont = base + 2;
        let h = try_header_of(item);
        let first: Result<Entries, DecodeError> = if h is Some {
            if h->0.key is Some {
                match array_lines(lines, index, h->0) {
                    Err(e) => Err(e),
                    Ok(v) => Ok(map_insert(Seq::empty(), h->0.key->0, v)),
                }
            } else {
                Ok(Seq::empty())
            }
        } else {
            match key_of(item) {
                Err(e) => Err(e),
                Ok((key, key_end)) => {
                    let rest = if 0 <= key_end <= item.len() {
                        trim(item.subrange(key_end, item.len() as int))
                    } else {
                        Seq::empty()
                    };
                    if rest.len() > 0 {
                        Ok(map_insert(Seq::empty(), key, inline_value(rest)))
                    } else if index + 1 < lines.len() && lines[index + 1].depth >= cont {
                        match object_lines(lines, cont, index + 1, Seq::empty()) {
                            Err(e) => Err(e),
                            Ok(obj) => Ok(map_insert(Seq::empty(), key, SpecValue::Object(obj))),
                        }
                    } else {
                        Ok(map_insert(Seq::empty(), key, SpecValue::Object(Seq::empty())))
                    }
                },
            }
        };
        match first {
            Err(e) => Err(e),
            Ok(acc) => continuation_lines(lines, cont, index + 1, acc),
        }
    }
}

/// The entries after the first of a list item, at depth `cont`, from line `i`;
/// a `- ` line at that depth ends them.
pub open spec fn continuation_lines(lines: Seq<LineModel>, cont: nat, i: int, acc: Entries) -> Result<
    Entries,
    DecodeError,
>
    decreases lines.len() - i, 4int,
{
    if i < 0 || i >= lines.len() || lines[i].depth < cont {
        Ok(acc)
    } else if lines[i].depth == cont {
        let content = lines[i].content;
        if starts_with(content, dash()) {
            Ok(acc)
        } else {
            let h = try_header_of(content);
            if h is Some && h->0.key is Some {
                match array_lines(lines, i, h->0) {
                    Err(e) => Err(e),
                    Ok(v) => {
                        let j = skip_deeper(lines, cont, i + 1);
                        proof {
                            lemma_skip_deeper(lines, cont, i + 1);
                        }
                        if j > i {
                            continuation_lines(lines, cont, j, map_insert(acc, h->0.key->0, v))
                        } else {
                            Ok(acc)
                        }
                    },
                }
            } else {
                match key_colon(content) {
                    Some(c) => match key_value_lines(lines, i, cont, c) {
                        Err(e) => Err(e),
                        Ok((k, v, next)) => if i < next <= lines.len() {
                            continuation_lines(lines, cont, next, map_insert(acc, k, v))
                        } else {
                            Ok(acc)
                        },
                    },
                    None => continuation_lines(lines, cont, i + 1, acc),
                }
            }
        }
    } else {
        continuation_lines(lines, cont, i + 1, acc)
    }
}

/// The array that the header on line `index` starts: empty for length 0,
/// inline values, tabular rows, or expanded items.
pub open spec fn array_lines(lines: Seq<LineModel>, index: int, h: HeaderModel) -> Result<
    SpecValue,
    DecodeError,
>
    decreases lines.len() - index, 2int,
{
    if h.length == 0 {
        Ok(SpecValue::Array(Seq::empty()))
    } else if h.inline_values is Some && h.fields is None {
        Ok(SpecValue::Array(delimited_of(h.inline_values->0, h.delimiter)))
    } else if h.fields is Some {
        if 0 <= index < lines.len() {
            Ok(
                SpecValue::Array(
                    tabular_rows(
                        lines,
                        lines[index].depth,
                        index + 1,
                        h.length,
                        h.fields->0,
                        h.delimiter,
                        Seq::empty(),
                    ),
                ),
            )
        } else {
            Ok(SpecValue::Array(Seq::empty()))
        }
    } else if 0 <= index < lines.len() {
        match expanded_lines(lines, lines[index].depth, index + 1, h.length, Seq::empty()) {
            Err(e) => Err(e),
            Ok(items) => Ok(SpecValue::Array(items)),
        }
    } else {
        Ok(SpecValue::Array(Seq::empty()))
    }
}

/// The items of an expanded array whose header is at depth `base`, from line
/// `i`, at most `expected` of them.
pub open spec fn expanded_lines(
    lines: Seq<LineModel>,
    base: nat,
    i: int,
    expected: nat,
    acc: Seq<SpecValue>,
) -> Result<Seq<SpecValue>, DecodeError>
    decreases lines.len() - i, 4int,
{
    if i < 0 || i >= lines.len() || acc.len() >= expected || lines[i].depth != base + 1 {
        Ok(acc)
    } else if starts_with(lines[i].content, dash()) {
        let item = item_content(lines[i].content);
        let h = try_header_of(item);
        if h is Some {
            if h->0.key is Some {
                match list_item_lines(lines, i, base) {
                    Err(e) => Err(e),
                    Ok(obj) => {
                        let j = skip_deeper(lines, base + 1, i + 1);
                        proof {
                            lemma_skip_deeper(lines, base + 1, i + 1);
                        }
                        if j > i {
                            expanded_lines(lines, base, j, expected, acc.push(SpecValue::Object(obj)))
                        } else {
                            Ok(acc)
                        }
                    },
                }
            } else if h->0.inline_values is Some {
                expanded_lines(
                    lines,
                    base,
                    i + 1,
                    expected,
                    acc.push(SpecValue::Array(delimited_of(h->0.inline_values->0, h->0.delimiter))),
                )
            } else {
                expanded_lines(lines, base, i + 1, expected, acc)
            }
        } else if contains_char(item, ':') {
            match list_item_lines(lines, i, base) {
                Err(e) => Err(e),
                Ok(obj) => {
                    let j = skip_deeper(lines, base + 1, i + 1);
                    proof {
                        lemma_skip_deeper(lines, base + 1, i + 1);
                    }
                    if j > i {
                        expanded_lines(lines, base, j, expected, acc.push(SpecValue::Object(obj)))
                    } else {
                        Ok(acc)
                    }
                },
            }
        } else {
            expanded_lines(lines, base, i + 1, expected, acc.push(inline_value(item)))
        }
    } else {
        expanded_lines(lines, base, i + 1, expected, acc)
    }
}

/// A whole document from its lines: an empty object where there is no line or
/// only `{}`, an array where the first line is a header without key, a
/// primitive where the only line has no colon, and an object otherwise.
pub open spec fn document_of(lines: Seq<LineModel>) -> Result<SpecValue, DecodeError> {
    if lines.len() == 0 {
        Ok(SpecValue::Object(Seq::empty()))
    } else if lines.len() == 1 && lines[0].content == seq!['{', '}'] {
        Ok(SpecValue::Object(Seq::empty()))
    } else if try_header_of(lines[0].content) is Some && try_header_of(lines[0].content)->0.key is None {
        array_lines(lines, 0, try_header_of(lines[0].content)->0)
    } else if lines.len() == 1 && !contains_char(lines[0].content, ':') {
        Ok(primitive_of(lines[0].content))
    } else {
        match object_lines(lines, 0, 0, Seq::empty()) {
            Err(e) => Err(e),
            Ok(obj) => Ok(SpecValue::Object(obj)),
        }
    }
}

// ---------------------------------------------------------------------------
// Decoding parsed lines
// ---------------------------------------------------------------------------
/// A line of a document as the decoder holds it.
pub struct ParsedLine {
    pub depth: usize,
    pub content: Vec<char>,
}

impl View for ParsedLine {
    type V = LineModel;

    open spec fn view(&self) -> LineModel {
        LineModel { depth: self.depth as nat, content: self.content@ }
    }
}

pub open spec fn lines_view(lines: Seq<ParsedLine>) -> Seq<LineModel> {
    lines.map_values(|l: ParsedLine| l@)
}

/// Whether depth `d` is `base + k`.
fn depth_is(d: usize, base: usize, k: usize) -> (r: bool)
    ensures
        r == (d as int == base as int + k as int),
{
    d >= base && d - base == k
}

/// Whether depth `d` is greater than `base + k`.
fn depth_above(d: usize, base: usize, k: usize) -> (r: bool)
    ensures
        r == (d as int > base as int + k as int),
{
    d > base && d - base > k
}

/// The first line at or after `start` that is not deeper than `base + k`.
fn skip_deeper_lines(lines: &Vec<ParsedLine>, base: usize, k: usize, start: usize) -> (r: usize)
    requires
        start <= lines@.len(),
    ensures
        r as int == skip_deeper(lines_view(lines@), (base + k) as nat, start as int),
        start <= r <= lines@.len(),
{
    let ghost lv = lines_view(lines@);
    let mut i = start;
    while i < lines.len() && depth_above(lines[i].depth, base, k)
        invariant
            start <= i <= lines@.len(),
            lv == lines_view(lines@),
            skip_deeper(lv, (base + k) as nat, start as int) == skip_deeper(
                lv,
                (base + k) as nat,
                i as int,
            ),
        decreases lines@.len() - i,
    {
        i = i + 1;
    }
    i
}

/// The object of the `k` first cells of a row.
fn build_row(fields: &Vec<Vec<char>>, values: Vec<Value>) -> (m: SconMap)
    ensures
        m@ == row_entries(char_vecs_view(fields@), view_values(values@), fields@.len()),
{
    let ghost f = char_vecs_view(fields@);
    let ghost vs = view_values(values@);
    proof {
        lemma_view_values(values@);
    }
    let mut vals = values;
    let mut row = SconMap::new();
    let mut k: usize = 0;
    while k < fields.len()
        invariant
            k <= fields@.len(),
            f == char_vecs_view(fields@),
            vs == view_values(values@),
            vs.len() == values@.len(),
            forall|j: int| 0 <= j < values@.len() ==> #[trigger] vs[j] == values@[j]@,
            k <= values@.len() ==> vals@ == values@.subrange(k as int, values@.len() as int),
            k > values@.len() ==> vals@.len() == 0,
            row@ == row_entries(f, vs, k as nat),
        decreases fields@.len() - k,
    {
        let v = if vals.len() > 0 {
            vals.remove(0)
        } else {
            Value::Null
        };
        proof {
            if k < values@.len() {
                assert(v == values@[k as int]);
                assert(vals@ =~= values@.subrange(k + 1, values@.len() as int));
            }
        }
        let key = string_of(fields[k].as_slice());
        row.insert(key, v);
        k = k + 1;
    }
    row
}

/// The rows of a tabular array whose header is line `header_idx`.
fn decode_tabular_array(
    lines: &Vec<ParsedLine>,
    header_idx: usize,
    expected: usize,
    fields: &Vec<Vec<char>>,
    d: char,
) -> (r: Value)
    requires
        header_idx < lines@.len(),
    ensures
        r@ == SpecValue::Array(
            tabular_rows(
                lines_view(lines@),
                lines@[header_idx as int].depth as nat,
                header_idx + 1,
                expected as nat,
                char_vecs_view(fields@),
                d,
                Seq::empty(),
            ),
        ),
{
    let ghost lv = lines_view(lines@);
    let ghost f = char_vecs_view(fields@);
    let base = lines[header_idx].depth;
    let mut result: Vec<Value> = Vec::new();
    let n = lines.len();
    let mut i = header_idx + 1;
    proof {
        lemma_view_values(result@);
    }
    while i < n && result.len() < expected
        invariant
            header_idx < i <= lines@.len(),
            n == lines@.len(),
            lv == lines_view(lines@),
            f == char_vecs_view(fields@),
            base == lines@[header_idx as int].depth,
            view_values(result@).len() == result@.len(),
            tabular_rows(lv, base as nat, header_idx + 1, expected as nat, f, d, Seq::empty())
                == tabular_rows(lv, base as nat, i as int, expected as nat, f, d, view_values(result@)),
        decreases lines@.len() - i,
    {
        if !depth_is(lines[i].depth, base, 1) {
            return Value::Array(result);
        }
        let values = parse_delimited_values(lines[i].content.as_slice(), d);
        let row = build_row(fields, values);
        let ghost before = result@;
        let item = Value::Object(row);
        result.push(item);
        proof {
            lemma_view_values_push(before, item);
        }
        i = i + 1;
    }
    Value::Array(result)
}

/// The entries of an object, or why it could not be read.
pub open spec fn entries_result(r: Result<SconMap, DecodeError>) -> Result<Entries, DecodeError> {
    match r {
        Ok(m) => Ok(m@),
        Err(e) => Err(e),
    }
}

/// A value, or why it could not be read.
pub open spec fn value_result(r: Result<Value, DecodeError>) -> Result<SpecValue, DecodeError> {
    match r {
        Ok(v) => Ok(v@),
        Err(e) => Err(e),
    }
}

/// A key, its value and the next line, or why they could not be read.
pub open spec fn entry_result(r: Result<(String, Value, usize), DecodeError>) -> Result<
    (Seq<char>, SpecValue, int),
    DecodeError,
> {
    match r {
        Ok((k, v, next)) => Ok((k@, v@, next as int)),
        Err(e) => Err(e),
    }
}

/// The items of an array as an array value.
pub open spec fn items_value(r: Result<Seq<SpecValue>, DecodeError>) -> Result<SpecValue, DecodeError> {
    match r {
        Ok(items) => Ok(SpecValue::Array(items)),
        Err(e) => Err(e),
    }
}

/// The entries of the object whose lines are at depth `base`, from line `start`.
fn decode_object(lines: &Vec<ParsedLine>, base: usize, start: usize) -> (r: Result<
    SconMap,
    DecodeError,
>)
    requires
        start <= lines@.len(),
    ensures
        entries_result(r) == object_lines(
            lines_view(lines@),
            base as nat,
            start as int,
            Seq::empty(),
        ),
    decreases lines@.len() - start, 5int,
{
    let ghost lv = lines_view(lines@);
    let n = lines.len();
    let mut result = SconMap::new();
    let mut i = start;
    while i < n
        invariant
            start <= i <= n,
            n == lines@.len(),
            lv == lines_view(lines@),
            object_lines(lv, base as nat, start as int, Seq::empty()) == object_lines(
                lv,
                base as nat,
                i as int,
                result@,
            ),
        decreases n - i,
    {
        let depth = lines[i].depth;
        if depth < base {
            return Ok(result);
        }
        if depth > base {
            i = i + 1;
            continue;
        }
        let content = lines[i].content.as_slice();
        if let Some(h) = try_array_header(content) {
            if let Some(key) = &h.key {
                match decode_array_from_header(lines, i, &h) {
                    Err(e) => {
                        return Err(e);
                    },
                    Ok(v) => {
                        result.insert(string_of(key.as_slice()), v);
                    },
                }
                i = skip_deeper_lines(lines, base, 0, i + 1);
                continue;
            }
        }
        match find_key_colon(content) {
            Some(colon) => match decode_key_value(lines, i, base, colon) {
                Err(e) => {
                    return Err(e);
                },
                Ok((k, v, next)) => {
                    result.insert(k, v);
                    i = next;
                },
            },
            None => {
                i = i + 1;
            },
        }
    }
    Ok(result)
}

/// The key, value and next line of the entry on line `index`, whose key ends
/// at `colon`.
fn decode_key_value(lines: &Vec<ParsedLine>, index: usize, base: usize, colon: usize) -> (r: Result<
    (String, Value, usize),
    DecodeError,
>)
    requires
        index < lines@.len(),
        colon < lines@[index as int].content@.len(),
    ensures
        entry_result(r) == key_value_lines(
            lines_view(lines@),
            index as int,
            base as nat,
            colon as int,
        ),
        r matches Ok((_k, _v, next)) ==> index < next <= lines@.len(),
    decreases lines@.len() - index, 3int,
{
    let ghost lv = lines_view(lines@);
    let n = lines.len();
    let content = lines[index].content.as_slice();
    let (key, key_end) = if content.len() > 0 && content[0] == '"' {
        match parse_key(content) {
            Ok(p) => p,
            Err(e) => {
                return Err(e);
            },
        }
    } else {
        (trim_range(content, 0, colon), colon + 1)
    };
    let key = string_of(key.as_slice());
    let rest = trim_range(content, key_end, content.len());
    if rest.len() > 0 {
        return Ok((key, parse_inline_value(rest.as_slice()), index + 1));
    }
    if index + 1 < n && lines[index + 1].depth > base {
        if depth_is(lines[index + 1].depth, base, 1) && has_prefix(
            lines[index + 1].content.as_slice(),
            &['-', ' '],
        ) {
            let mut items: Vec<Value> = Vec::new();
            let mut j = index + 1;
            proof {
                lemma_view_values(items@);
            }
            while j < n && lines[j].depth > base
                invariant
                    index < j <= n,
                    n == lines@.len(),
                    lv == lines_view(lines@),
                    match item_lines(lv, base as nat, index + 1, Seq::empty()) {
                        Err(e) => key_value_lines(lv, index as int, base as nat, colon as int)
                            == Err::<(Seq<char>, SpecValue, int), DecodeError>(e),
                        Ok(_) => true,
                    },
                    item_lines(lv, base as nat, index + 1, Seq::empty()) == item_lines(
                        lv,
                        base as nat,
                        j as int,
                        view_values(items@),
                    ),
                decreases n - j,
            {
                let cj = lines[j].content.as_slice();
                if depth_is(lines[j].depth, base, 1) && has_prefix(cj, &['-', ' ']) {
                    let item = slice_chars(cj, 2, cj.len());
                    let ghost before = items@;
                    if has_char(item.as_slice(), ':') {
                        match decode_list_item_object(lines, j, base) {
                            Err(e) => {
                                return Err(e);
                            },
                            Ok(obj) => {
                                let v = Value::Object(obj);
                                items.push(v);
                                proof {
                                    lemma_view_values_push(before, v);
                                }
                            },
                        }
                    } else {
                        let v = parse_inline_value(item.as_slice());
                        items.push(v);
                        proof {
                            lemma_view_values_push(before, v);
                        }
                    }
                }
                j = j + 1;
            }
            return Ok((key, Value::Array(items), j));
        }
        let obj = match decode_object(lines, base + 1, index + 1) {
            Ok(m) => m,
            Err(e) => {
                return Err(e);
            },
        };
        let next = skip_deeper_lines(lines, base, 0, index + 1);
        return Ok((key, Value::Object(obj), next));
    }
    Ok((key, Value::Object(SconMap::new()), index + 1))
}

/// The entries of the object that the `- ` line `index` starts, in an array
/// at depth `base`.
fn decode_list_item_object(lines: &Vec<ParsedLine>, index: usize, base: usize) -> (r: Result<
    SconMap,
    DecodeError,
>)
    requires
        index < lines@.len(),
        lines@[index as int].content@.len() >= 2,
    ensures
        entries_result(r) == list_item_lines(lines_view(lines@), index as int, base as nat),
    decreases lines@.len() - index, 3int,
{
    let ghost lv = lines_view(lines@);
    let n = lines.len();
    let content = lines[index].content.as_slice();
    let item = slice_chars(content, 2, content.len());
    let mut result = SconMap::new();
    if let Some(h) = try_array_header(item.as_slice()) {
        if let Some(key) = &h.key {
            match decode_array_from_header(lines, index, &h) {
                Err(e) => {
                    return Err(e);
                },
                Ok(v) => {
                    result.insert(string_of(key.as_slice()), v);
                },
            }
        }
    } else {
        let (key, key_end) = match parse_key(item.as_slice()) {
            Ok(p) => p,
            Err(e) => {
                return Err(e);
            },
        };
        let key = string_of(key.as_slice());
        let rest = trim_range(item.as_slice(), key_end, item.len());
        if rest.len() > 0 {
            result.insert(key, parse_inline_value(rest.as_slice()));
        } else if index + 1 < n && lines[index + 1].depth >= base && lines[index + 1].depth - base
            >= 2 {
            match decode_object(lines, base + 2, index + 1) {
                Err(e) => {
                    return Err(e);
                },
                Ok(obj) => {
                    result.insert(key, Value::Object(obj));
                },
            }
        } else {
            result.insert(key, Value::Object(SconMap::new()));
        }
    }
    decode_continuation(lines, base, index + 1, result)
}

/// The entries after the first of a list item in an array at depth `base`,
/// two levels deeper than `base`, from line `start`, added to `acc`.
fn decode_continuation(lines: &Vec<ParsedLine>, base: usize, start: usize, acc: SconMap) -> (r: Result<
    SconMap,
    DecodeError,
>)
    requires
        start <= lines@.len(),
    ensures
        entries_result(r) == continuation_lines(
            lines_view(lines@),
            (base + 2) as nat,
            start as int,
            acc@,
        ),
    decreases lines@.len() - start, 4int,
{
    let ghost lv = lines_view(lines@);
    let ghost cont = (base + 2) as nat;
    let n = lines.len();
    let mut result = acc;
    let mut i = start;
    while i < n
        invariant
            start <= i <= n,
            n == lines@.len(),
            lv == lines_view(lines@),
            cont == base + 2,
            continuation_lines(lv, cont, start as int, acc@) == continuation_lines(
                lv,
                cont,
                i as int,
                result@,
            ),
        decreases n - i,
    {
        let d = lines[i].depth;
        if d < base || d - base < 2 {
            return Ok(result);
        }
        if d - base == 2 {
            let c = lines[i].content.as_slice();
            if has_prefix(c, &['-', ' ']) {
                return Ok(result);
            }
            if let Some(h) = try_array_header(c) {
                if let Some(k) = &h.key {
                    match decode_array_from_header(lines, i, &h) {
                        Err(e) => {
                            return Err(e);
                        },
                        Ok(v) => {
                            result.insert(string_of(k.as_slice()), v);
                        },
                    }
                    i = skip_deeper_lines(lines, base, 2, i + 1);
                    continue;
                }
            }
            if let Some(colon) = find_key_colon(c) {
                match decode_key_value(lines, i, d, colon) {
                    Err(e) => {
                        return Err(e);
                    },
                    Ok((k, v, next)) => {
                        result.insert(k, v);
                        i = next;
                        continue;
                    },
                }
            }
        }
        i = i + 1;
    }
    Ok(result)
}

/// The array that the header `h` on line `index` starts.
fn decode_array_from_header(lines: &Vec<ParsedLine>, index: usize, h: &ArrayHeader) -> (r: Result<
    Value,
    DecodeError,
>)
    requires
        index < lines@.len(),
    ensures
        value_result(r) == array_lines(lines_view(lines@), index as int, h@),
    decreases lines@.len() - index, 2int,
{
    if h.length == 0 {
        proof {
            lemma_view_values(Seq::<Value>::empty());
        }
        return Ok(Value::Array(Vec::new()));
    }
    if h.fields.is_none() {
        if let Some(inline) = &h.inline_values {
            return Ok(Value::Array(parse_delimited_values(inline.as_slice(), h.delimiter)));
        }
    }
    if let Some(fields) = &h.fields {
        return Ok(decode_tabular_array(lines, index, h.length, fields, h.delimiter));
    }
    decode_expanded_array(lines, index, h.length)
}

/// The items of the expanded array whose header is line `header_idx`.
fn decode_expanded_array(lines: &Vec<ParsedLine>, header_idx: usize, expected: usize) -> (r: Result<
    Value,
    DecodeError,
>)
    requires
        header_idx < lines@.len(),
    ensures
        value_result(r) == items_value(
            expanded_lines(
                lines_view(lines@),
                lines@[header_idx as int].depth as nat,
                header_idx + 1,
                expected as nat,
                Seq::empty(),
            ),
        ),
    decreases lines@.len() - header_idx - 1, 4int,
{
    let ghost lv = lines_view(lines@);
    let base = lines[header_idx].depth;
    let n = lines.len();
    let mut result: Vec<Value> = Vec::new();
    let mut i = header_idx + 1;
    proof {
        lemma_view_values(result@);
    }
    while i < n && result.len() < expected
        invariant
            header_idx < i <= n,
            n == lines@.len(),
            lv == lines_view(lines@),
            base == lines@[header_idx as int].depth,
            view_values(result@).len() == result@.len(),
            expanded_lines(lv, base as nat, header_idx + 1, expected as nat, Seq::empty())
                == expanded_lines(lv, base as nat, i as int, expected as nat, view_values(result@)),
        decreases n - i,
    {
        if !depth_is(lines[i].depth, base, 1) {
            return Ok(Value::Array(result));
        }
        let c = lines[i].content.as_slice();
        if has_prefix(c, &['-', ' ']) {
            let item = slice_chars(c, 2, c.len());
            let ghost before = result@;
            match try_array_header(item.as_slice()) {
                Some(h) => {
                    if h.key.is_some() {
                        match decode_list_item_object(lines, i, base) {
                            Err(e) => {
                                return Err(e);
                            },
                            Ok(obj) => {
                                let v = Value::Object(obj);
                                result.push(v);
                                proof {
                                    lemma_view_values_push(before, v);
                                }
                                i = skip_deeper_lines(lines, base, 1, i + 1);
                                continue;
                            },
                        }
                    } else if let Some(inline) = &h.inline_values {
                        let v = Value::Array(parse_delimited_values(inline.as_slice(), h.delimiter));
                        result.push(v);
                        proof {
                            lemma_view_values_push(before, v);
                        }
                    }
                },
                None => {
                    if has_char(item.as_slice(), ':') {
                        match decode_list_item_object(lines, i, base) {
                            Err(e) => {
                                return Err(e);
                            },
                            Ok(obj) => {
                                let v = Value::Object(obj);
                                result.push(v);
                                proof {
                                    lemma_view_values_push(before, v);
                                }
                                i = skip_deeper_lines(lines, base, 1, i + 1);
                                continue;
                            },
                        }
                    } else {
                        let v = parse_inline_value(item.as_slice());
                        result.push(v);
                        proof {
                            lemma_view_values_push(before, v);
                        }
                    }
                },
            }
        }
        i = i + 1;
    }
    Ok(Value::Array(result))
}

/// A whole document from its parsed lines.
pub fn decode_lines(lines: &Vec<ParsedLine>) -> (r: Result<Value, DecodeError>)
    ensures
        value_result(r) == document_of(lines_view(lines@)),
{
    let ghost lv = lines_view(lines@);
    if lines.len() == 0 {
        return Ok(Value::Object(SconMap::new()));
    }
    let first = lines[0].content.as_slice();
    if lines.len() == 1 && chars_eq(first, &['{', '}']) {
        return Ok(Value::Object(SconMap::new()));
    }
    if let Some(h) = try_array_header(first) {
        if h.key.is_none() {
            return decode_array_from_header(lines, 0, &h);
        }
    }
    if lines.len() == 1 && !has_char(first, ':') {
        return Ok(parse_primitive(first));
    }
    match decode_object(lines, 0, 0) {
        Ok(m) => Ok(Value::Object(m)),
        Err(e) => Err(e),
    }
}

} // verus!
