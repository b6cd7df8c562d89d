//! The tape decoder: SCON text read into one flat sequence of nodes instead of
//! a tree.  An object node holds its number of entries, each a key node
//! followed by the nodes of its value; an array node holds its number of
//! items.  Strings and keys are taken as they are written, without resolving
//! escapes.
use vstd::prelude::*;
use crate::decoder::{
    decoded, detected_indent, find_first_indent, find_indent_after_newline, is_minified, next_indent,
    split_lines, text_lines, Decoder,
};
use crate::format::{entries_height, height, lemma_entries_height, lemma_seq_height, seq_height};
use crate::inline::{
    try_array_header, ArrayHeader, char_vecs_view, lemma_trim_len, primitive_of, starts_like_number, try_header_of, DecodeError, HeaderModel,
};
use crate::layout::{dash, item_content, lines_view, LineModel, ParsedLine};
use crate::syntax::{
    bounds_ok, brace_content, bracket_scan, closing_quote, extract_brace_content,
    find_closing_quote, find_key_colon, find_matching_bracket, key_colon, lemma_brace_scan,
    lemma_key_colon, lemma_split_scan, parse_number, split_bounds, split_top_level,
    try_parse_number,
};
use crate::text::{
    chars_eq, chars_of, contains_char, find, has_char, has_prefix, slice_chars, starts_with, string_of, trim, trim_chars, trim_range,
};
use crate::value::{lemma_view_values, view_values, SpecValue, Value};

verus! {

/// The model of a tape node.
pub enum NodeModel {
    Null,
    Bool(bool),
    Integer(i64),
    Float(Seq<char>),
    Str(Seq<char>),
    Object(nat),
    Array(nat),
    Key(Seq<char>),
}

pub type Nodes = Seq<NodeModel>;

// ---------------------------------------------------------------------------
// Values written on one line
// ---------------------------------------------------------------------------
/// The node of a primitive token; a quoted string is taken between its quotes
/// as it is written.
pub open spec fn primitive_node(token: Seq<char>) -> NodeModel {
    let t = trim(token);
    if t.len() == 0 {
        NodeModel::Str(Seq::empty())
    } else if t == seq!['[', ']'] {
        NodeModel::Array(0)
    } else if t == seq!['{', '}'] {
        NodeModel::Object(0)
    } else if t[0] == '"' && closing_quote(t, 0) is Some {
        NodeModel::Str(t.subrange(1, closing_quote(t, 0)->0))
    } else if t == seq!['t', 'r', 'u', 'e'] {
        NodeModel::Bool(true)
    } else if t == seq!['f', 'a', 'l', 's', 'e'] {
        NodeModel::Bool(false)
    } else if t == seq!['n', 'u', 'l', 'l'] {
        NodeModel::Null
    } else if starts_like_number(t[0]) && parse_number(t) is Some {
        match parse_number(t)->0 {
            SpecValue::Integer(n) => NodeModel::Integer(n),
            SpecValue::Float(x) => NodeModel::Float(x),
            _ => NodeModel::Str(t),
        }
    } else {
        NodeModel::Str(t)
    }
}

/// The tape reads a primitive token as the decoder does: the node of a token
/// is a string node exactly where the decoder reads the token as a string, and
/// otherwise it is the one node of the value that the decoder reads (`true`
/// and `false` as booleans, `null` as null, numbers as numbers, `[]` and `{}`
/// as an empty array and object).  A string node holds the string as written:
/// the decoder's string is it, with its escapes resolved where it was quoted.
pub proof fn lemma_primitive_node_agrees(token: Seq<char>)
    ensures
        primitive_node(token) is Str <==> primitive_of(token) is Str,
        !(primitive_of(token) is Str) ==> seq![primitive_node(token)] == value_nodes(
            primitive_of(token),
        ),
        primitive_node(token) matches NodeModel::Str(r) ==> primitive_of(token) == SpecValue::Str(
            if trim(token).len() > 0 && trim(token)[0] == '"' && closing_quote(trim(token), 0) is Some {
                crate::syntax::unescape(r)
            } else {
                r
            },
        ),
{
    let t = trim(token);
    if t.len() > 0 && !(t == seq!['[', ']']) && !(t == seq!['{', '}']) && !(t[0] == '"'
        && closing_quote(t, 0) is Some) && t != seq!['t', 'r', 'u', 'e'] && t != seq![
        'f',
        'a',
        'l',
        's',
        'e',
    ] && t != seq!['n', 'u', 'l', 'l'] && starts_like_number(t[0]) && parse_number(t) is Some {
        assert(parse_number(t)->0 is Integer || parse_number(t)->0 is Float);
    }
    assert(items_nodes(Seq::<SpecValue>::empty()) =~= Seq::<NodeModel>::empty());
    assert(entries_nodes(Seq::<(Seq<char>, SpecValue)>::empty()) =~= Seq::<NodeModel>::empty());
}

/// The tape reads the text that the encoder writes for a primitive that reads
/// back as that primitive's node: a string as a string node, any other
/// primitive as its own node.
pub proof fn lemma_primitive_node_of_text(st: crate::format::Style, v: SpecValue)
    requires
        crate::round_trip::reads_back(st, v),
    ensures
        primitive_node(crate::format::primitive_text(st, v)) is Str <==> v is Str,
        !(v is Str) ==> seq![primitive_node(crate::format::primitive_text(st, v))] == value_nodes(v),
{
    crate::round_trip::lemma_primitive_round_trip(st, v);
    lemma_primitive_node_agrees(crate::format::primitive_text(st, v));
}

/// The nodes of the primitives between top-level delimiters.
pub open spec fn delimited_nodes(input: Seq<char>, d: char) -> Nodes {
    let b = split_bounds(input, d);
    Seq::new(b.len(), |k: int| primitive_node(input.subrange(b[k].0, b[k].1)))
}

/// A key with its surrounding quotes removed, escapes left as written.
pub open spec fn raw_unquote(t: Seq<char>) -> Seq<char> {
    if t.len() >= 2 && t[0] == '"' && t.last() == '"' {
        t.subrange(1, t.len() - 1)
    } else {
        t
    }
}

/// The nodes of a value written inline.
pub open spec fn inline_nodes(input: Seq<char>) -> Nodes
    decreases input.len(), 0int,
{
    let t = trim(input);
    proof {
        lemma_trim_len(input);
        lemma_brace_scan(t, 0, 0, None, false);
    }
    if t.len() == 0 {
        seq![NodeModel::Str(Seq::empty())]
    } else if t == seq!['[', ']'] {
        seq![NodeModel::Array(0)]
    } else if t == seq!['{', '}'] {
        seq![NodeModel::Object(0)]
    } else if t[0] == '{' && brace_content(t) is Some {
        let (a, b) = brace_content(t)->0;
        let inner = t.subrange(a, b);
        let (count, nodes) = inline_object_nodes(inner, split_bounds(inner, ',').len());
        seq![NodeModel::Object(count)] + nodes
    } else if t[0] == '[' && bracket_scan(t, 0, 0, false) is Some {
        let close = bracket_scan(t, 0, 0, false)->0;
        if 1 <= close {
            let items = delimited_nodes(t.subrange(1, close), ',');
            seq![NodeModel::Array(items.len())] + items
        } else {
            seq![primitive_node(t)]
        }
    } else {
        seq![primitive_node(t)]
    }
}

/// The entry count and nodes of an inline object from its first `k` parts.
pub open spec fn inline_object_nodes(inner: Seq<char>, k: nat) -> (nat, Nodes)
    decreases inner.len(), k,
{
    let b = split_bounds(inner, ',');
    proof {
        lemma_split_scan(inner, ',', 0, 0, false, 0, 0, Seq::empty());
    }
    if k == 0 || k > b.len() {
        (0, Seq::empty())
    } else {
        let (count, acc) = inline_object_nodes(inner, (k - 1) as nat);
        let part = trim(inner.subrange(b[k - 1].0, b[k - 1].1));
        proof {
            lemma_trim_len(inner.subrange(b[k - 1].0, b[k - 1].1));
            lemma_key_colon(part);
        }
        if part.len() == 0 {
            (count, acc)
        } else {
            match key_colon(part) {
                Some(c) => {
                    let rest = trim(part.subrange(c + 1, part.len() as int));
                    proof {
                        lemma_trim_len(part.subrange(c + 1, part.len() as int));
                    }
                    (
                        count + 1,
                        acc + seq![NodeModel::Key(raw_unquote(trim(part.subrange(0, c))))]
                            + inline_nodes(rest),
                    )
                },
                None => (count, acc),
            }
        }
    }
}

/// A key as written and where its value begins.
pub open spec fn raw_key_of(content: Seq<char>) -> Result<(Seq<char>, int), DecodeError> {
    if content.len() > 0 && content[0] == '"' {
        match closing_quote(content, 0) {
            None => Err(DecodeError::UnterminatedQuotedKey),
            Some(close) => if close + 1 >= content.len() || content[close + 1] != ':' {
                Err(DecodeError::MissingColonAfterKey)
            } else {
                Ok((content.subrange(1, close), close + 2))
            },
        }
    } else {
        let colon = find(content, ':');
        if colon < 0 {
            Err(DecodeError::MissingColonAfterKey)
        } else {
            Ok((trim(content.subrange(0, colon)), colon + 1))
        }
    }
}

// ---------------------------------------------------------------------------
// Tabular rows
// ---------------------------------------------------------------------------
/// The cells of a tabular row: split at every delimiter outside quotes, the
/// last cell running to the end.
pub open spec fn row_scan(s: Seq<char>, d: char, i: int, seg: int, in_q: bool, parts: Seq<(int, int)>) -> Seq<
    (int, int),
>
    decreases s.len() - i,
{
    if i < 0 || i >= s.len() {
        parts.push((seg, s.len() as int))
    } else if s[i] == '\\' && in_q && i + 1 < s.len() {
        row_scan(s, d, i + 2, seg, in_q, parts)
    } else {
        let q = if s[i] == '"' {
            !in_q
        } else {
            in_q
        };
        if s[i] == d && !q {
            row_scan(s, d, i + 1, i + 1, q, parts.push((seg, i)))
        } else {
            row_scan(s, d, i + 1, seg, q, parts)
        }
    }
}

pub open spec fn row_bounds(s: Seq<char>, d: char) -> Seq<(int, int)> {
    row_scan(s, d, 0, 0, false, Seq::empty())
}

/// The nodes of the first `k` cells of a row: each field's key, then its
/// cell, or null where the row has fewer cells.
pub open spec fn row_nodes(fields: Seq<Seq<char>>, s: Seq<char>, d: char, k: nat) -> Nodes
    decreases k,
{
    if k == 0 || k > fields.len() {
        Seq::empty()
    } else {
        let b = row_bounds(s, d);
        row_nodes(fields, s, d, (k - 1) as nat) + seq![
            NodeModel::Key(fields[k - 1]),
            if k - 1 < b.len() {
                primitive_node(s.subrange(b[k - 1].0, b[k - 1].1))
            } else {
                NodeModel::Null
            },
        ]
    }
}

/// The rows of a tabular array from line `i`, with how many there were and
/// the line after them.
pub open spec fn tape_rows(
    lines: Seq<LineModel>,
    base: nat,
    i: int,
    expected: nat,
    fields: Seq<Seq<char>>,
    d: char,
    count: nat,
    acc: Nodes,
) -> (nat, Nodes, int)
    decreases lines.len() - i,
{
    if i < 0 || i >= lines.len() || count >= expected || lines[i].depth != base + 1 {
        (count, acc, i)
    } else {
        tape_rows(
            lines,
            base,
            i + 1,
            expected,
            fields,
            d,
            count + 1,
            acc + seq![NodeModel::Object(fields.len())] + row_nodes(
                fields,
                lines[i].content,
                d,
                fields.len(),
            ),
        )
    }
}

// ---------------------------------------------------------------------------
// Objects, arrays, list items
// ---------------------------------------------------------------------------
/// The nodes of the object whose lines are at depth `base`, from line `start`,
/// and the line where it ends.
pub open spec fn tape_object(lines: Seq<LineModel>, base: nat, start: int) -> Result<
    (Nodes, int),
    DecodeError,
>
    decreases lines.len() - start, 6int,
{
    match object_loop(lines, base, start, 0, Seq::empty()) {
        Err(e) => Err(e),
        Ok((count, nodes, next)) => Ok((seq![NodeModel::Object(count)] + nodes, next)),
    }
}

/// The entries of an object from line `i`, after `count` entries with nodes `acc`.
pub open spec fn object_loop(lines: Seq<LineModel>, base: nat, i: int, count: nat, acc: Nodes) -> Result<
    (nat, Nodes, int),
    DecodeError,
>
    decreases lines.len() - i, 5int,
{
    if i < 0 || i >= lines.len() || lines[i].depth < base {
        Ok((count, acc, i))
    } else if lines[i].depth > base {
        object_loop(lines, base, i + 1, count, acc)
    } else {
        let content = lines[i].content;
        let h = try_header_of(content);
        if h is Some && h->0.key is Some {
            match tape_array(lines, i, h->0) {
                Err(e) => Err(e),
                Ok((nodes, next)) => if i < next <= lines.len() {
                    object_loop(
                        lines,
                        base,
                        next,
                        count + 1,
                        acc + seq![NodeModel::Key(h->0.key->0)] + nodes,
                    )
                } else {
                    Ok((count, acc, i))
                },
            }
        } else {
            match key_colon(content) {
                Some(c) => match tape_key_value(lines, i, base, c) {
                    Err(e) => Err(e),
                    Ok((nodes, next)) => if i < next <= lines.len() {
                        object_loop(lines, base, next, count + 1, acc + nodes)
                    } else {
                        Ok((count, acc, i))
                    },
                },
                None => object_loop(lines, base, i + 1, count, acc),
            }
        }
    }
}

/// The nodes of the entry on line `index` (its key node first), and the line
/// after it.
pub open spec fn tape_key_value(lines: Seq<LineModel>, index: int, base: nat, colon: int) -> Result<
    (Nodes, int),
    DecodeError,
>
    decreases lines.len() - index, 3int,
{
    if index < 0 || index >= lines.len() {
        Err(DecodeError::MissingColonAfterKey)
    } else {
        let content = lines[index].content;
        let kr = if content.len() > 0 && content[0] == '"' {
            raw_key_of(content)
        } else if 0 <= colon < content.len() {
            Ok((trim(content.subrange(0, colon)), colon + 1))
        } else {
            Err(DecodeError::MissingColonAfterKey)
        };
        match kr {
            Err(e) => Err(e),
            Ok((key, key_end)) => {
                let rest = if 0 <= key_end <= content.len() {
                    trim(content.subrange(key_end, content.len() as int))
                } else {
                    Seq::empty()
                };
                if rest.len() > 0 {
                    Ok((seq![NodeModel::Key(key)] + inline_nodes(rest), index + 1))
                } else if index + 1 < lines.len() && lines[index + 1].depth > base {
                    if lines[index + 1].depth == base + 1 && starts_with(
                        lines[index + 1].content,
                        dash(),
                    ) {
                        match item_loop(lines, base, index + 1, 0, Seq::empty()) {
                            Err(e) => Err(e),
                            Ok((count, nodes, j)) => Ok(
                                (seq![NodeModel::Key(key), NodeModel::Array(count)] + nodes, j),
                            ),
                        }
                    } else {
                        match tape_object(lines, base + 1, index + 1) {
                            Err(e) => Err(e),
                            Ok((nodes, next)) => Ok((seq![NodeModel::Key(key)] + nodes, next)),
                        }
                    }
                } else {
                    Ok((seq![NodeModel::Key(key), NodeModel::Object(0)], index + 1))
                }
            },
        }
    }
}

/// The items of a list without header from line `j`: the `- ` lines one level
/// deeper than `base`, up to the first line not deeper than `base`.
pub open spec fn item_loop(lines: Seq<LineModel>, base: nat, j: int, count: nat, acc: Nodes) -> Result<
    (nat, Nodes, int),
    DecodeError,
>
    decreases lines.len() - j, 4int,
{
    if j < 0 || j >= lines.len() || lines[j].depth < base + 1 {
        Ok((count, acc, j))
    } else if lines[j].depth == base + 1 && starts_with(lines[j].content, dash()) {
        let item = item_content(lines[j].content);
        if contains_char(item, ':') {
            match tape_list_item(lines, j, base) {
                Err(e) => Err(e),
                Ok((nodes, next)) => if j < next <= lines.len() {
                    item_loop(lines, base, next, count + 1, acc + nodes)
                } else {
                    Ok((count, acc, j))
                },
            }
        } else {
            item_loop(lines, base, j + 1, count + 1, acc + inline_nodes(item))
        }
    } else {
        item_loop(lines, base, j + 1, count, acc)
    }
}

/// The nodes of the object that the `- ` line `index` starts, in an array at
/// depth `base`, and the line after it.
pub open spec fn tape_list_item(lines: Seq<LineModel>, index: int, base: nat) -> Result<
    (Nodes, int),
    DecodeError,
>
    decreases lines.len() - index, 3int,
{
    if index < 0 || index >= lines.len() {
        Ok((seq![NodeModel::Object(0)], index + 1))
    } else {
        let item = item_content(lines[index].content);
        let cont = base + 2;
        let h = try_header_of(item);
        let first: Result<(nat, Nodes, int), DecodeError> = if h is Some {
            if h->0.key is Some {
                match tape_array(lines, index, h->0) {
                    Err(e) => Err(e),
                    Ok((nodes, next)) => Ok((1nat, seq![NodeModel::Key(h->0.key->0)] + nodes, next)),
                }
            } else {
                Ok((0nat, Seq::empty(), index + 1))
            }
        } else {
            match raw_key_of(item) {
                Err(e) => Err(e),
                Ok((key, key_end)) => {
                    let rest = if 0 <= key_end <= item.len() {
                        trim(item.subrange(key_end, item.len() as int))
                    } else {
                        Seq::empty()
                    };
                    if rest.len() > 0 {
                        Ok((1nat, seq![NodeModel::Key(key)] + inline_nodes(rest), index + 1))
                    } else if index + 1 < lines.len() && lines[index + 1].depth >= cont {
                        match tape_object(lines, cont, index + 1) {
                            Err(e) => Err(e),
                            Ok((nodes, next)) => Ok((1nat, seq![NodeModel::Key(key)] + nodes, next)),
                        }
                    } else {
                        Ok((1nat, seq![NodeModel::Key(key), NodeModel::Object(0)], index + 1))
                    }
                },
            }
        };
        match first {
            Err(e) => Err(e),
            Ok((c, nodes, cs)) => if index < cs <= lines.len() {
                match continuation_loop(lines, cont, cs, c, nodes) {
                    Err(e) => Err(e),
                    Ok((count, all, i)) => Ok((seq![NodeModel::Object(count)] + all, i)),
                }
            } else {
                Ok((seq![NodeModel::Object(c)] + nodes, cs))
            },
        }
    }
}

/// The entries after the first of a list item, at depth `cont`, from line `i`.
pub open spec fn continuation_loop(lines: Seq<LineModel>, cont: nat, i: int, count: nat, acc: Nodes) -> Result<
    (nat, Nodes, int),
    DecodeError,
>
    decreases lines.len() - i, 4int,
{
    if i < 0 || i >= lines.len() || lines[i].depth < cont {
        Ok((count, acc, i))
    } else if lines[i].depth == cont {
        let content = lines[i].content;
        if starts_with(content, dash()) {
            Ok((count, acc, i))
        } else {
            let h = try_header_of(content);
            if h is Some && h->0.key is Some {
                match tape_array(lines, i, h->0) {
                    Err(e) => Err(e),
                    Ok((nodes, next)) => if i < next <= lines.len() {
                        continuation_loop(
                            lines,
                            cont,
                            next,
                            count + 1,
                            acc + seq![NodeModel::Key(h->0.key->0)] + nodes,
                        )
                    } else {
                        Ok((count, acc, i))
                    },
                }
            } else {
                match key_colon(content) {
                    Some(c) => match tape_key_value(lines, i, cont, c) {
                        Err(e) => Err(e),
                        Ok((nodes, next)) => if i < next <= lines.len() {
                            continuation_loop(lines, cont, next, count + 1, acc + nodes)
                        } else {
                            Ok((count, acc, i))
                        },
                    },
                    None => continuation_loop(lines, cont, i + 1, count, acc),
                }
            }
        }
    } else {
        continuation_loop(lines, cont, i + 1, count, acc)
    }
}

/// The nodes of the array that the header on line `index` starts, and the
/// line after it.
pub open spec fn tape_array(lines: Seq<LineModel>, index: int, h: HeaderModel) -> Result<
    (Nodes, int),
    DecodeError,
>
    decreases lines.len() - index, 2int,
{
    if h.length == 0 {
        Ok((seq![NodeModel::Array(0)], index + 1))
    } else if h.inline_values is Some && h.fields is None {
        let items = delimited_nodes(h.inline_values->0, h.delimiter);
        Ok((seq![NodeModel::Array(items.len())] + items, index + 1))
    } else if !(0 <= index < lines.len()) {
        Ok((seq![NodeModel::Array(0)], index + 1))
    } else if h.fields is Some {
        let (count, rows, next) = tape_rows(
            lines,
            lines[index].depth,
            index + 1,
            h.length,
            h.fields->0,
            h.delimiter,
            0,
            Seq::empty(),
        );
        Ok((seq![NodeModel::Array(count)] + rows, next))
    } else {
        match expanded_loop(lines, lines[index].depth, index + 1, h.length, 0, Seq::empty()) {
            Err(e) => Err(e),
            Ok((count, nodes, next)) => Ok((seq![NodeModel::Array(count)] + nodes, next)),
        }
    }
}

/// The items of an expanded array whose header is at depth `base`, from line
/// `i`, at most `expected` of them.
pub open spec fn expanded_loop(
    lines: Seq<LineModel>,
    base: nat,
    i: int,
    expected: nat,
    count: nat,
    acc: Nodes,
) -> Result<(nat, Nodes, int), DecodeError>
    decreases lines.len() - i, 4int,
{
    if i < 0 || i >= lines.len() || count >= expected || lines[i].depth != base + 1 {
        Ok((count, acc, i))
    } else if starts_with(lines[i].content, dash()) {
        let item = item_content(lines[i].content);
        let h = try_header_of(item);
        if h is Some {
            if h->0.key is Some {
                match tape_list_item(lines, i, base) {
                    Err(e) => Err(e),
                    Ok((nodes, next)) => if i < next <= lines.len() {
                        expanded_loop(lines, base, next, expected, count + 1, acc + nodes)
                    } else {
                        Ok((count, acc, i))
                    },
                }
            } else if h->0.inline_values is Some {
                let items = delimited_nodes(h->0.inline_values->0, h->0.delimiter);
                expanded_loop(
                    lines,
                    base,
                    i + 1,
                    expected,
                    count + 1,
                    acc + seq![NodeModel::Array(items.len())] + items,
                )
            } else {
                expanded_loop(lines, base, i + 1, expected, count, acc)
            }
        } else if contains_char(item, ':') {
            match tape_list_item(lines, i, base) {
                Err(e) => Err(e),
                Ok((nodes, next)) => if i < next <= lines.len() {
                    expanded_loop(lines, base, next, expected, count + 1, acc + nodes)
                } else {
                    Ok((count, acc, i))
                },
            }
        } else {
            expanded_loop(lines, base, i + 1, expected, count + 1, acc + inline_nodes(item))
        }
    } else {
        expanded_loop(lines, base, i + 1, expected, count, acc)
    }
}

/// The tape of a whole document from its lines.
pub open spec fn tape_document(lines: Seq<LineModel>) -> Result<Nodes, DecodeError> {
    if lines.len() == 0 {
        Ok(seq![NodeModel::Object(0)])
    } else if lines.len() == 1 && lines[0].content == seq!['{', '}'] {
        Ok(seq![NodeModel::Object(0)])
    } else if try_header_of(lines[0].content) is Some && try_header_of(lines[0].content)->0.key is None {
        match tape_array(lines, 0, try_header_of(lines[0].content)->0) {
            Err(e) => Err(e),
            Ok((nodes, _next)) => Ok(nodes),
        }
    } else if lines.len() == 1 && !contains_char(lines[0].content, ':') {
        Ok(seq![primitive_node(lines[0].content)])
    } else {
        match tape_object(lines, 0, 0) {
            Err(e) => Err(e),
            Ok((nodes, _next)) => Ok(nodes),
        }
    }
}

// ---------------------------------------------------------------------------
// Values as tapes
// ---------------------------------------------------------------------------
/// The nodes of a decoded value, with every string and every key left empty.
pub open spec fn value_nodes(v: SpecValue) -> Nodes
    decreases v,
{
    match v {
        SpecValue::Null => seq![NodeModel::Null],
        SpecValue::Bool(b) => seq![NodeModel::Bool(b)],
        SpecValue::Integer(n) => seq![NodeModel::Integer(n)],
        SpecValue::Float(t) => seq![NodeModel::Float(t)],
        SpecValue::Str(_) => seq![NodeModel::Str(Seq::empty())],
        SpecValue::Array(a) => seq![NodeModel::Array(a.len())] + items_nodes(a),
        SpecValue::Object(m) => seq![NodeModel::Object(m.len())] + entries_nodes(m),
    }
}

pub open spec fn items_nodes(a: Seq<SpecValue>) -> Nodes
    decreases a,
{
    if a.len() == 0 {
        Seq::empty()
    } else {
        items_nodes(a.drop_last()) + value_nodes(a.last())
    }
}

pub open spec fn entries_nodes(m: Seq<(Seq<char>, SpecValue)>) -> Nodes
    decreases m,
{
    if m.len() == 0 {
        Seq::empty()
    } else {
        entries_nodes(m.drop_last()) + seq![NodeModel::Key(Seq::empty())] + value_nodes(
            m.last().1,
        )
    }
}

/// What reading `t` onto a tape gives, with `indent` spaces per level and
/// detection on or off: a minified document is decoded into a value (with
/// one space per level and detection on) and that value written as nodes.
pub open spec fn taped(indent: nat, auto: bool, t: Seq<char>) -> Result<Nodes, DecodeError> {
    if is_minified(t) {
        match decoded(1, true, t) {
            Err(e) => Err(e),
            Ok(v) => Ok(value_nodes(v)),
        }
    } else {
        tape_document(text_lines(t, detected_indent(indent, auto, t)))
    }
}

/// A tape that a text reads onto is never empty: it starts with the node of
/// the document's value (an empty text gives the one node of an empty object).
pub proof fn lemma_tape_not_empty(indent: nat, auto: bool, t: Seq<char>)
    ensures
        taped(indent, auto, t) matches Ok(n) ==> n.len() > 0,
{
    if is_minified(t) {
        if decoded(1, true, t) is Ok {
            let v = decoded(1, true, t)->Ok_0;
            assert(value_nodes(v).len() > 0);
        }
    } else {
        let lines = text_lines(t, detected_indent(indent, auto, t));
        if try_header_of(lines[0].content) is Some && lines.len() > 0 {
            let r = tape_array(lines, 0, try_header_of(lines[0].content)->0);
            if r is Ok {
                assert(r->Ok_0.0.len() > 0);
            }
        }
        let q = tape_object(lines, 0, 0);
        if q is Ok {
            assert(q->Ok_0.0.len() > 0);
        }
    }
}

// ---------------------------------------------------------------------------
// Nodes and tapes
// ---------------------------------------------------------------------------
/// A node of a tape.
#[derive(Debug, PartialEq)]
pub enum Node {
    Null,
    Bool(bool),
    Integer(i64),
    /// A floating-point number, as its text.
    Float(String),
    String(String),
    /// An object with this many entries; each is a key node and then the nodes
    /// of its value.
    Object(usize),
    /// An array with this many items.
    Array(usize),
    Key(String),
}

impl View for Node {
    type V = NodeModel;

    open spec fn view(&self) -> NodeModel {
        match self {
            Node::Null => NodeModel::Null,
            Node::Bool(b) => NodeModel::Bool(*b),
            Node::Integer(n) => NodeModel::Integer(*n),
            Node::Float(t) => NodeModel::Float(t@),
            Node::String(s) => NodeModel::Str(s@),
            Node::Object(n) => NodeModel::Object(*n as nat),
            Node::Array(n) => NodeModel::Array(*n as nat),
            Node::Key(k) => NodeModel::Key(k@),
        }
    }
}

pub open spec fn nodes_view(s: Seq<Node>) -> Nodes {
    s.map_values(|n: Node| n@)
}

/// A document as a flat sequence of nodes.
pub struct Tape {
    pub nodes: Vec<Node>,
}

impl Tape {
    /// The number of nodes.
    pub fn len(&self) -> (n: usize)
        ensures
            n == self.nodes@.len(),
    {
        self.nodes.len()
    }

    /// Whether the tape has no node.
    pub fn is_empty(&self) -> (b: bool)
        ensures
            b == (self.nodes@.len() == 0),
    {
        self.nodes.len() == 0
    }
}

pub proof fn lemma_nodes_view_len(s: Seq<Node>)
    ensures
        nodes_view(s).len() == s.len(),
{
}

/// Appends a node.
fn push_node(tape: &mut Vec<Node>, n: Node)
    ensures
        nodes_view(final(tape)@) == nodes_view(old(tape)@).push(n@),
{
    let ghost v = n@;
    tape.push(n);
    assert(nodes_view(tape@) =~= nodes_view(old(tape)@).push(v));
}

/// Replaces the node at `pos`.
fn set_node(tape: &mut Vec<Node>, pos: usize, n: Node)
    requires
        pos < old(tape)@.len(),
    ensures
        nodes_view(final(tape)@) == nodes_view(old(tape)@).update(pos as int, n@),
{
    let ghost v = n@;
    tape.set(pos, n);
    assert(nodes_view(tape@) =~= nodes_view(old(tape)@).update(pos as int, v));
}

// ---------------------------------------------------------------------------
// Writing values written on one line
// ---------------------------------------------------------------------------
/// The node of a primitive token.
fn primitive_node_of(token: &[char]) -> (n: Node)
    ensures
        n@ == primitive_node(token@),
{
    let t = trim_chars(token);
    if t.len() == 0 {
        return Node::String(String::new());
    }
    if chars_eq(t.as_slice(), &['[', ']']) {
        return Node::Array(0);
    }
    if chars_eq(t.as_slice(), &['{', '}']) {
        return Node::Object(0);
    }
    if t[0] == '"' {
        if let Some(close) = find_closing_quote(t.as_slice(), 0) {
            let inner = slice_chars(t.as_slice(), 1, close);
            return Node::String(string_of(inner.as_slice()));
        }
    }
    if chars_eq(t.as_slice(), &['t', 'r', 'u', 'e']) {
        return Node::Bool(true);
    }
    if chars_eq(t.as_slice(), &['f', 'a', 'l', 's', 'e']) {
        return Node::Bool(false);
    }
    if chars_eq(t.as_slice(), &['n', 'u', 'l', 'l']) {
        return Node::Null;
    }
    let first = t[0];
    if ('0' <= first && first <= '9') || first == '+' || first == '-' || first == '.' {
        if let Some(v) = try_parse_number(t.as_slice()) {
            match v {
                Value::Integer(n) => {
                    return Node::Integer(n);
                },
                Value::Float(x) => {
                    return Node::Float(x);
                },
                _ => {
                    return Node::String(string_of(t.as_slice()));
                },
            }
        }
    }
    Node::String(string_of(t.as_slice()))
}

/// Appends the nodes of the primitives between top-level delimiters, and
/// tells how many there were.
fn push_delimited(input: &[char], d: char, tape: &mut Vec<Node>) -> (count: usize)
    ensures
        nodes_view(final(tape)@) == nodes_view(old(tape)@) + delimited_nodes(input@, d),
        count == delimited_nodes(input@, d).len(),
{
    let parts = split_top_level(input, d);
    let ghost b = split_bounds(input@, d);
    let ghost items = delimited_nodes(input@, d);
    let mut k: usize = 0;
    while k < parts.len()
        invariant
            k <= parts@.len() == b.len(),
            b == split_bounds(input@, d),
            items == delimited_nodes(input@, d),
            bounds_ok(input@, b),
            forall|t: int|
                0 <= t < parts@.len() ==> (#[trigger] parts@[t]).0 as int == b[t].0 && parts@[t].1
                    as int == b[t].1,
            nodes_view(tape@) == nodes_view(old(tape)@) + items.take(k as int),
        decreases parts.len() - k,
    {
        let (a, e) = parts[k];
        proof {
            assert(parts@[k as int].0 as int == b[k as int].0);
        }
        let piece = slice_chars(input, a, e);
        let n = primitive_node_of(piece.as_slice());
        push_node(tape, n);
        proof {
            assert(items.take(k + 1) =~= items.take(k as int).push(items[k as int]));
        }
        k = k + 1;
    }
    proof {
        assert(items.take(items.len() as int) =~= items);
    }
    k
}

/// Appends the nodes of a value written inline.
fn push_inline_value(input: &[char], tape: &mut Vec<Node>)
    ensures
        nodes_view(final(tape)@) == nodes_view(old(tape)@) + inline_nodes(input@),
    decreases input@.len(),
{
    let t = trim_chars(input);
    proof {
        lemma_trim_len(input@);
    }
    if t.len() == 0 {
        push_node(tape, Node::String(String::new()));
        return;
    }
    if chars_eq(t.as_slice(), &['[', ']']) {
        push_node(tape, Node::Array(0));
        return;
    }
    if chars_eq(t.as_slice(), &['{', '}']) {
        push_node(tape, Node::Object(0));
        return;
    }
    if t[0] == '{' {
        if let Some((a, b)) = extract_brace_content(t.as_slice()) {
            let inner = slice_chars(t.as_slice(), a, b);
            let pos = tape.len();
            push_node(tape, Node::Object(0));
            let ghost mid = nodes_view(tape@);
            let count = push_inline_object(inner.as_slice(), tape);
            proof {
                lemma_nodes_view_len(tape@);
                lemma_nodes_view_len(old(tape)@);
            }
            set_node(tape, pos, Node::Object(count));
            proof {
                let (c, nodes) = inline_object_nodes(inner@, split_bounds(inner@, ',').len());
                assert(nodes_view(tape@) =~= nodes_view(old(tape)@) + (seq![NodeModel::Object(c)]
                    + nodes));
            }
            return;
        }
    }
    if t[0] == '[' {
        if let Some(close) = find_matching_bracket(t.as_slice(), 0) {
            if 1 <= close {
                let inner = slice_chars(t.as_slice(), 1, close);
                let pos = tape.len();
                push_node(tape, Node::Array(0));
                let count = push_delimited(inner.as_slice(), ',', tape);
                proof {
                    lemma_nodes_view_len(tape@);
                    lemma_nodes_view_len(old(tape)@);
                }
                set_node(tape, pos, Node::Array(count));
                proof {
                    let items = delimited_nodes(inner@, ',');
                    assert(nodes_view(tape@) =~= nodes_view(old(tape)@) + (seq![
                        NodeModel::Array(items.len()),
                    ] + items));
                }
                return;
            }
        }
    }
    let n = primitive_node_of(t.as_slice());
    push_node(tape, n);
}

/// Appends the entries of an inline object, and tells how many there were.
fn push_inline_object(inner: &[char], tape: &mut Vec<Node>) -> (count: usize)
    ensures
        nodes_view(final(tape)@) == nodes_view(old(tape)@) + inline_object_nodes(
            inner@,
            split_bounds(inner@, ',').len(),
        ).1,
        count == inline_object_nodes(inner@, split_bounds(inner@, ',').len()).0,
    decreases inner@.len(),
{
    let parts = split_top_level(inner, ',');
    let ghost b = split_bounds(inner@, ',');
    let mut count: usize = 0;
    let mut k: usize = 0;
    proof {
        assert(nodes_view(tape@) =~= nodes_view(old(tape)@) + Seq::<NodeModel>::empty());
    }
    while k < parts.len()
        invariant
            k <= parts@.len() == b.len(),
            b == split_bounds(inner@, ','),
            bounds_ok(inner@, b),
            forall|t: int|
                0 <= t < parts@.len() ==> (#[trigger] parts@[t]).0 as int == b[t].0 && parts@[t].1
                    as int == b[t].1,
            count <= k,
            count == inline_object_nodes(inner@, k as nat).0,
            nodes_view(tape@) == nodes_view(old(tape)@) + inline_object_nodes(inner@, k as nat).1,
        decreases parts.len() - k,
    {
        let (a, e) = parts[k];
        proof {
            assert(parts@[k as int].0 as int == b[k as int].0);
        }
        let part = trim_range(inner, a, e);
        proof {
            lemma_trim_len(inner@.subrange(a as int, e as int));
            lemma_key_colon(part@);
        }
        if part.len() > 0 {
            if let Some(colon) = find_key_colon(part.as_slice()) {
                let key_trimmed = trim_range(part.as_slice(), 0, colon);
                let key = if key_trimmed.len() >= 2 && key_trimmed[0] == '"' && key_trimmed[key_trimmed.len()
                    - 1] == '"' {
                    slice_chars(key_trimmed.as_slice(), 1, key_trimmed.len() - 1)
                } else {
                    key_trimmed
                };
                let rest = trim_range(part.as_slice(), colon + 1, part.len());
                proof {
                    lemma_trim_len(part@.subrange(colon + 1, part@.len() as int));
                }
                let ghost before = nodes_view(tape@);
                push_node(tape, Node::Key(string_of(key.as_slice())));
                push_inline_value(rest.as_slice(), tape);
                proof {
                    let prev = inline_object_nodes(inner@, k as nat).1;
                    assert(nodes_view(tape@) =~= nodes_view(old(tape)@) + (prev + seq![
                        NodeModel::Key(key@),
                    ] + inline_nodes(rest@)));
                }
                count = count + 1;
            }
        }
        k = k + 1;
    }
    count
}

// ---------------------------------------------------------------------------
// Writing tabular rows
// ---------------------------------------------------------------------------
pub open spec fn bounds_view(v: Seq<(usize, usize)>) -> Seq<(int, int)> {
    v.map_values(|p: (usize, usize)| (p.0 as int, p.1 as int))
}

/// The cells of a tabular row.
fn row_split(s: &[char], d: char) -> (r: Vec<(usize, usize)>)
    ensures
        bounds_view(r@) == row_bounds(s@, d),
        forall|k: int| 0 <= k < r@.len() ==> (#[trigger] r@[k]).0 <= r@[k].1 <= s@.len(),
{
    let n = s.len();
    let mut parts: Vec<(usize, usize)> = Vec::new();
    let mut seg: usize = 0;
    let mut in_q = false;
    let mut i: usize = 0;
    proof {
        assert(bounds_view(parts@) =~= Seq::<(int, int)>::empty());
    }
    while i < n
        invariant
            seg <= i <= n,
            n == s@.len(),
            row_bounds(s@, d) == row_scan(s@, d, i as int, seg as int, in_q, bounds_view(parts@)),
            forall|k: int| 0 <= k < parts@.len() ==> (#[trigger] parts@[k]).0 <= parts@[k].1 <= seg,
        decreases n - i,
    {
        let c = s[i];
        if c == '\\' && in_q && i + 1 < n {
            i = i + 2;
            continue;
        }
        if c == '"' {
            in_q = !in_q;
        }
        if c == d && !in_q {
            let ghost before = parts@;
            parts.push((seg, i));
            proof {
                assert(bounds_view(parts@) =~= bounds_view(before).push((seg as int, i as int)));
            }
            seg = i + 1;
            i = i + 1;
            continue;
        }
        i = i + 1;
    }
    let ghost before = parts@;
    parts.push((seg, n));
    proof {
        assert(bounds_view(parts@) =~= bounds_view(before).push((seg as int, n as int)));
    }
    parts
}

/// Appends the key and cell nodes of a row.
fn push_row(fields: &Vec<Vec<char>>, s: &[char], d: char, tape: &mut Vec<Node>)
    ensures
        nodes_view(final(tape)@) == nodes_view(old(tape)@) + row_nodes(
            char_vecs_view(fields@),
            s@,
            d,
            fields@.len(),
        ),
{
    let parts = row_split(s, d);
    let ghost f = char_vecs_view(fields@);
    let ghost b = row_bounds(s@, d);
    let mut k: usize = 0;
    proof {
        assert(nodes_view(tape@) =~= nodes_view(old(tape)@) + Seq::<NodeModel>::empty());
    }
    while k < fields.len()
        invariant
            k <= fields@.len(),
            f == char_vecs_view(fields@),
            b == row_bounds(s@, d),
            bounds_view(parts@) == b,
            forall|t: int| 0 <= t < parts@.len() ==> (#[trigger] parts@[t]).0 <= parts@[t].1 <= s@.len(),
            nodes_view(tape@) == nodes_view(old(tape)@) + row_nodes(f, s@, d, k as nat),
        decreases fields@.len() - k,
    {
        push_node(tape, Node::Key(string_of(fields[k].as_slice())));
        let cell = if k < parts.len() {
            let (a, e) = parts[k];
            let piece = slice_chars(s, a, e);
            primitive_node_of(piece.as_slice())
        } else {
            Node::Null
        };
        proof {
            if k < parts@.len() {
                assert(bounds_view(parts@)[k as int] == (parts@[k as int].0 as int, parts@[k as int].1 as int));
            }
        }
        push_node(tape, cell);
        proof {
            assert(nodes_view(tape@) =~= nodes_view(old(tape)@) + row_nodes(f, s@, d, (k + 1) as nat));
        }
        k = k + 1;
    }
}

/// Appends the rows of the tabular array whose header is line `header_idx`,
/// and tells how many there were and the line after them.
fn emit_tabular_array(
    lines: &Vec<ParsedLine>,
    header_idx: usize,
    expected: usize,
    fields: &Vec<Vec<char>>,
    d: char,
    tape: &mut Vec<Node>,
) -> (r: (usize, usize))
    requires
        header_idx < lines@.len(),
    ensures
        ({
            let (count, rows, next) = tape_rows(
                lines_view(lines@),
                lines@[header_idx as int].depth as nat,
                header_idx + 1,
                expected as nat,
                char_vecs_view(fields@),
                d,
                0,
                Seq::empty(),
            );
            &&& r.0 == count
            &&& r.1 == next
            &&& nodes_view(final(tape)@) == nodes_view(old(tape)@) + rows
        }),
        header_idx < r.1 <= lines@.len(),
{
    let ghost lv = lines_view(lines@);
    let ghost f = char_vecs_view(fields@);
    let base = lines[header_idx].depth;
    let n = lines.len();
    let mut count: usize = 0;
    let mut i = header_idx + 1;
    let ghost mut acc: Nodes = Seq::empty();
    proof {
        assert(nodes_view(tape@) =~= nodes_view(old(tape)@) + acc);
    }
    while i < n && count < expected
        invariant
            header_idx < i <= n,
            n == lines@.len(),
            lv == lines_view(lines@),
            f == char_vecs_view(fields@),
            base == lines@[header_idx as int].depth,
            nodes_view(tape@) == nodes_view(old(tape)@) + acc,
            tape_rows(lv, base as nat, header_idx + 1, expected as nat, f, d, 0, Seq::empty())
                == tape_rows(lv, base as nat, i as int, expected as nat, f, d, count as nat, acc),
        decreases n - i,
    {
        if !(lines[i].depth >= base && lines[i].depth - base == 1) {
            return (count, i);
        }
        let ghost before = nodes_view(tape@);
        push_node(tape, Node::Object(fields.len()));
        push_row(fields, lines[i].content.as_slice(), d, tape);
        proof {
            let acc2 = acc + seq![NodeModel::Object(f.len())] + row_nodes(
                f,
                lv[i as int].content,
                d,
                f.len(),
            );
            assert(nodes_view(tape@) =~= nodes_view(old(tape)@) + acc2);
            acc = acc2;
        }
        count = count + 1;
        i = i + 1;
    }
    (count, i)
}

// ---------------------------------------------------------------------------
// Writing objects, arrays and list items
// ---------------------------------------------------------------------------
/// The exec result `r` matches the spec result `s`: on success the nodes were
/// appended to the tape and `r` is the next line.
pub open spec fn emitted(
    r: Result<usize, DecodeError>,
    s: Result<(Nodes, int), DecodeError>,
    before: Nodes,
    after: Nodes,
) -> bool {
    match s {
        Ok((nodes, next)) => r matches Ok(n) && n as int == next && after == before + nodes,
        Err(e) => r == Err::<usize, DecodeError>(e),
    }
}

/// A key as written and where its value begins.
fn parse_raw_key(content: &[char]) -> (r: Result<(Vec<char>, usize), DecodeError>)
    ensures
        match r {
            Ok((k, e)) => raw_key_of(content@) == Ok::<(Seq<char>, int), DecodeError>((k@, e as int)),
            Err(err) => raw_key_of(content@) == Err::<(Seq<char>, int), DecodeError>(err),
        },
        r matches Ok((k, e)) ==> 1 <= e <= content@.len(),
{
    if content.len() > 0 && content[0] == '"' {
        proof {
            crate::syntax::lemma_quote_scan(content@, 1);
        }
        match find_closing_quote(content, 0) {
            None => Err(DecodeError::UnterminatedQuotedKey),
            Some(close) => {
                if close + 1 >= content.len() || content[close + 1] != ':' {
                    Err(DecodeError::MissingColonAfterKey)
                } else {
                    Ok((slice_chars(content, 1, close), close + 2))
                }
            },
        }
    } else {
        proof {
            crate::text::lemma_find_from(content@, ':', 0);
        }
        match crate::text::find_char(content, ':') {
            None => Err(DecodeError::MissingColonAfterKey),
            Some(colon) => Ok((trim_range(content, 0, colon), colon + 1)),
        }
    }
}

/// Appends the nodes of the object whose lines are at depth `base`, from line
/// `start`, and tells the line where it ends.
fn emit_object(lines: &Vec<ParsedLine>, base: usize, start: usize, tape: &mut Vec<Node>) -> (r: Result<
    usize,
    DecodeError,
>)
    requires
        start <= lines@.len(),
    ensures
        emitted(
            r,
            tape_object(lines_view(lines@), base as nat, start as int),
            nodes_view(old(tape)@),
            nodes_view(final(tape)@),
        ),
        r matches Ok(n) ==> start <= n <= lines@.len(),
    decreases lines@.len() - start, 6int,
{
    let ghost lv = lines_view(lines@);
    let ghost prefix = nodes_view(old(tape)@);
    let n = lines.len();
    let pos = tape.len();
    push_node(tape, Node::Object(0));
    let mut count: usize = 0;
    let mut i = start;
    let ghost mut acc: Nodes = Seq::empty();
    proof {
        assert(nodes_view(tape@) =~= prefix.push(NodeModel::Object(0)) + acc);
    }
    while i < n && lines[i].depth >= base
        invariant
            start <= i <= n,
            n == lines@.len(),
            lv == lines_view(lines@),
            count <= i - start,
            pos == prefix.len(),
            nodes_view(tape@) == prefix.push(NodeModel::Object(0)) + acc,
            object_loop(lv, base as nat, start as int, 0, Seq::empty()) == object_loop(
                lv,
                base as nat,
                i as int,
                count as nat,
                acc,
            ),
        decreases n - i,
    {
        if lines[i].depth > base {
            i = i + 1;
            continue;
        }
        let content = lines[i].content.as_slice();
        if let Some(h) = try_array_header(content) {
            if let Some(key) = &h.key {
                let ghost before = nodes_view(tape@);
                push_node(tape, Node::Key(string_of(key.as_slice())));
                let ghost mid = nodes_view(tape@);
                match emit_array_from_header(lines, i, &h, tape) {
                    Err(e) => {
                        return Err(e);
                    },
                    Ok(next) => {
                        proof {
                            let (nodes, _) = tape_array(lv, i as int, h@)->Ok_0;
                            let acc2 = acc + seq![NodeModel::Key(key@)] + nodes;
                            assert(nodes_view(tape@) =~= prefix.push(NodeModel::Object(0)) + acc2);
                            acc = acc2;
                        }
                        count = count + 1;
                        i = next;
                        continue;
                    },
                }
            }
        }
        match find_key_colon(content) {
            Some(colon) => {
                match emit_key_value(lines, i, base, colon, tape) {
                    Err(e) => {
                        return Err(e);
                    },
                    Ok(next) => {
                        proof {
                            let (nodes, _) = tape_key_value(lv, i as int, base as nat, colon as int)->Ok_0;
                            let acc2 = acc + nodes;
                            assert(nodes_view(tape@) =~= prefix.push(NodeModel::Object(0)) + acc2);
                            acc = acc2;
                        }
                        count = count + 1;
                        i = next;
                    },
                }
            },
            None => {
                i = i + 1;
            },
        }
    }
    proof {
        lemma_nodes_view_len(tape@);
    }
    set_node(tape, pos, Node::Object(count));
    proof {
        assert(nodes_view(tape@) =~= prefix + (seq![NodeModel::Object(count as nat)] + acc));
    }
    Ok(i)
}

/// Appends the nodes of the entry on line `index`, whose key ends at `colon`,
/// and tells the line after it.
fn emit_key_value(
    lines: &Vec<ParsedLine>,
    index: usize,
    base: usize,
    colon: usize,
    tape: &mut Vec<Node>,
) -> (r: Result<usize, DecodeError>)
    requires
        index < lines@.len(),
        colon < lines@[index as int].content@.len(),
    ensures
        emitted(
            r,
            tape_key_value(lines_view(lines@), index as int, base as nat, colon as int),
            nodes_view(old(tape)@),
            nodes_view(final(tape)@),
        ),
        r matches Ok(n) ==> index < n <= lines@.len(),
    decreases lines@.len() - index, 3int,
{
    let ghost lv = lines_view(lines@);
    let ghost prefix = nodes_view(old(tape)@);
    let n = lines.len();
    let content = lines[index].content.as_slice();
    let (key, key_end) = if content.len() > 0 && content[0] == '"' {
        match parse_raw_key(content) {
            Ok(p) => p,
            Err(e) => {
                return Err(e);
            },
        }
    } else {
        (trim_range(content, 0, colon), colon + 1)
    };
    push_node(tape, Node::Key(string_of(key.as_slice())));
    let rest = trim_range(content, key_end, content.len());
    if rest.len() > 0 {
        push_inline_value(rest.as_slice(), tape);
        proof {
            assert(nodes_view(tape@) =~= prefix + (seq![NodeModel::Key(key@)] + inline_nodes(rest@)));
        }
        return Ok(index + 1);
    }
    if index + 1 < n && lines[index + 1].depth > base {
        if lines[index + 1].depth - base == 1 && has_prefix(
            lines[index + 1].content.as_slice(),
            &['-', ' '],
        ) {
            let arr_pos = tape.len();
            push_node(tape, Node::Array(0));
            let ghost head = nodes_view(tape@);
            let mut count: usize = 0;
            let mut j = index + 1;
            let ghost mut acc: Nodes = Seq::empty();
            proof {
                assert(nodes_view(tape@) =~= head + acc);
            }
            while j < n && lines[j].depth > base
                invariant
                    index < j <= n,
                    n == lines@.len(),
                    lv == lines_view(lines@),
                    count <= j - index - 1,
                    arr_pos == prefix.len() + 1,
                    head == prefix.push(NodeModel::Key(key@)).push(NodeModel::Array(0)),
                    nodes_view(tape@) == head + acc,
                    tape_key_value(lv, index as int, base as nat, colon as int) == match item_loop(
                        lv,
                        base as nat,
                        index + 1,
                        0,
                        Seq::empty(),
                    ) {
                        Err(e) => Err(e),
                        Ok((c, nodes, jj)) => Ok(
                            (seq![NodeModel::Key(key@), NodeModel::Array(c)] + nodes, jj),
                        ),
                    },
                    item_loop(lv, base as nat, index + 1, 0, Seq::empty()) == item_loop(
                        lv,
                        base as nat,
                        j as int,
                        count as nat,
                        acc,
                    ),
                decreases n - j,
            {
                let cj = lines[j].content.as_slice();
                if lines[j].depth - base == 1 && has_prefix(cj, &['-', ' ']) {
                    let item = slice_chars(cj, 2, cj.len());
                    if has_char(item.as_slice(), ':') {
                        match emit_list_item_object(lines, j, base, tape) {
                            Err(e) => {
                                return Err(e);
                            },
                            Ok(next) => {
                                proof {
                                    let (nodes, _) = tape_list_item(lv, j as int, base as nat)->Ok_0;
                                    let acc2 = acc + nodes;
                                    assert(nodes_view(tape@) =~= head + acc2);
                                    acc = acc2;
                                }
                                count = count + 1;
                                j = next;
                                continue;
                            },
                        }
                    } else {
                        push_inline_value(item.as_slice(), tape);
                        proof {
                            let acc2 = acc + inline_nodes(item@);
                            assert(nodes_view(tape@) =~= head + acc2);
                            acc = acc2;
                        }
                        count = count + 1;
                    }
                }
                j = j + 1;
            }
            proof {
                lemma_nodes_view_len(tape@);
            }
            set_node(tape, arr_pos, Node::Array(count));
            proof {
                assert(nodes_view(tape@) =~= prefix + (seq![
                    NodeModel::Key(key@),
                    NodeModel::Array(count as nat),
                ] + acc));
            }
            return Ok(j);
        }
        let ghost mid = nodes_view(tape@);
        let next = match emit_object(lines, base + 1, index + 1, tape) {
            Ok(next) => next,
            Err(e) => {
                return Err(e);
            },
        };
        proof {
            let (nodes, _) = tape_object(lv, (base + 1) as nat, index + 1)->Ok_0;
            assert(nodes_view(tape@) =~= prefix + (seq![NodeModel::Key(key@)] + nodes));
        }
        return Ok(next);
    }
    push_node(tape, Node::Object(0));
    proof {
        assert(nodes_view(tape@) =~= prefix + seq![NodeModel::Key(key@), NodeModel::Object(0)]);
    }
    Ok(index + 1)
}

/// Appends the nodes of the object that the `- ` line `index` starts, in an
/// array at depth `base`, and tells the line after it.
#[verifier::rlimit(50)]
fn emit_list_item_object(lines: &Vec<ParsedLine>, index: usize, base: usize, tape: &mut Vec<Node>) -> (r: Result<
    usize,
    DecodeError,
>)
    requires
        index < lines@.len(),
        lines@[index as int].content@.len() >= 2,
    ensures
        emitted(
            r,
            tape_list_item(lines_view(lines@), index as int, base as nat),
            nodes_view(old(tape)@),
            nodes_view(final(tape)@),
        ),
        r matches Ok(n) ==> index < n <= lines@.len(),
    decreases lines@.len() - index, 3int,
{
    let ghost lv = lines_view(lines@);
    let ghost prefix = nodes_view(old(tape)@);
    let n = lines.len();
    let content = lines[index].content.as_slice();
    let item = slice_chars(content, 2, content.len());
    let obj_pos = tape.len();
    push_node(tape, Node::Object(0));
    let ghost head = nodes_view(tape@);
    let mut count: usize = 0;
    let mut cont_start = index + 1;
    let ghost mut acc: Nodes = Seq::empty();
    if let Some(h) = try_array_header(item.as_slice()) {
        if let Some(k) = &h.key {
            push_node(tape, Node::Key(string_of(k.as_slice())));
            match emit_array_from_header(lines, index, &h, tape) {
                Err(e) => {
                    return Err(e);
                },
                Ok(next) => {
                    proof {
                        let (nodes, _) = tape_array(lv, index as int, h@)->Ok_0;
                        acc = seq![NodeModel::Key(k@)] + nodes;
                    }
                    cont_start = next;
                    count = 1;
                },
            }
        }
    } else {
        let (key, key_end) = match parse_raw_key(item.as_slice()) {
            Ok(p) => p,
            Err(e) => {
                return Err(e);
            },
        };
        push_node(tape, Node::Key(string_of(key.as_slice())));
        let rest = trim_range(item.as_slice(), key_end, item.len());
        if rest.len() > 0 {
            push_inline_value(rest.as_slice(), tape);
            proof {
                acc = seq![NodeModel::Key(key@)] + inline_nodes(rest@);
            }
            count = 1;
        } else if index + 1 < n && lines[index + 1].depth >= base && lines[index + 1].depth - base
            >= 2 {
            match emit_object(lines, base + 2, index + 1, tape) {
                Err(e) => {
                    return Err(e);
                },
                Ok(next) => {
                    proof {
                        let (nodes, _) = tape_object(lv, (base + 2) as nat, index + 1)->Ok_0;
                        acc = seq![NodeModel::Key(key@)] + nodes;
                    }
                    cont_start = next;
                    count = 1;
                },
            }
        } else {
            push_node(tape, Node::Object(0));
            proof {
                acc = seq![NodeModel::Key(key@), NodeModel::Object(0)];
            }
            count = 1;
        }
    }
    proof {
        assert(nodes_view(tape@) =~= head + acc);
    }
    let (total, next) = match emit_continuation(
        lines,
        base,
        cont_start,
        count,
        Ghost(head),
        Ghost(acc),
        tape,
    ) {
        Ok(p) => p,
        Err(e) => {
            return Err(e);
        },
    };
    proof {
        lemma_nodes_view_len(tape@);
    }
    set_node(tape, obj_pos, Node::Object(total));
    proof {
        let (c, all, i) = continuation_loop(
            lv,
            (base + 2) as nat,
            cont_start as int,
            count as nat,
            acc,
        )->Ok_0;
        assert(nodes_view(tape@) =~= prefix + (seq![NodeModel::Object(c)] + all));
    }
    Ok(next)
}

/// Appends the entries after the first of a list item, two levels deeper than
/// `base`, from line `start`, after `count` entries whose nodes `acc` follow
/// `head`; tells how many entries there were in all and the line after them.
fn emit_continuation(
    lines: &Vec<ParsedLine>,
    base: usize,
    start: usize,
    count: usize,
    Ghost(head): Ghost<Nodes>,
    Ghost(acc): Ghost<Nodes>,
    tape: &mut Vec<Node>,
) -> (r: Result<(usize, usize), DecodeError>)
    requires
        start <= lines@.len(),
        count <= start,
        nodes_view(old(tape)@) == head + acc,
    ensures
        match continuation_loop(lines_view(lines@), (base + 2) as nat, start as int, count as nat, acc) {
            Ok((c, all, i)) => r matches Ok((rc, ri)) && rc == c && ri == i && nodes_view(
                final(tape)@,
            ) == head + all,
            Err(e) => r == Err::<(usize, usize), DecodeError>(e),
        },
        r matches Ok((rc, ri)) ==> start <= ri <= lines@.len(),
    decreases lines@.len() - start, 4int,
{
    let ghost lv = lines_view(lines@);
    let ghost cont = (base + 2) as nat;
    let n = lines.len();
    let mut total = count;
    let mut i = start;
    let ghost mut all = acc;
    while i < n
        invariant
            start <= i <= n,
            n == lines@.len(),
            lv == lines_view(lines@),
            cont == base + 2,
            total <= i,
            nodes_view(tape@) == head + all,
            continuation_loop(lv, cont, start as int, count as nat, acc) == continuation_loop(
                lv,
                cont,
                i as int,
                total as nat,
                all,
            ),
        decreases n - i,
    {
        let d = lines[i].depth;
        if d < base || d - base < 2 {
            return Ok((total, i));
        }
        if d - base == 2 {
            let c = lines[i].content.as_slice();
            if has_prefix(c, &['-', ' ']) {
                return Ok((total, i));
            }
            if let Some(h) = try_array_header(c) {
                if let Some(k) = &h.key {
                    push_node(tape, Node::Key(string_of(k.as_slice())));
                    match emit_array_from_header(lines, i, &h, tape) {
                        Err(e) => {
                            return Err(e);
                        },
                        Ok(next) => {
                            proof {
                                let (nodes, _) = tape_array(lv, i as int, h@)->Ok_0;
                                let all2 = all + seq![NodeModel::Key(k@)] + nodes;
                                assert(nodes_view(tape@) =~= head + all2);
                                all = all2;
                            }
                            total = total + 1;
                            i = next;
                            continue;
                        },
                    }
                }
            }
            if let Some(colon) = find_key_colon(c) {
                match emit_key_value(lines, i, d, colon, tape) {
                    Err(e) => {
                        return Err(e);
                    },
                    Ok(next) => {
                        proof {
                            let (nodes, _) = tape_key_value(lv, i as int, cont, colon as int)->Ok_0;
                            let all2 = all + nodes;
                            assert(nodes_view(tape@) =~= head + all2);
                            all = all2;
                        }
                        total = total + 1;
                        i = next;
                        continue;
                    },
                }
            }
        }
        i = i + 1;
    }
    Ok((total, i))
}

/// Appends the nodes of the array that the header `h` on line `index`
/// starts, and tells the line after it.
fn emit_array_from_header(lines: &Vec<ParsedLine>, index: usize, h: &ArrayHeader, tape: &mut Vec<Node>) -> (r: Result<
    usize,
    DecodeError,
>)
    requires
        index < lines@.len(),
    ensures
        emitted(
            r,
            tape_array(lines_view(lines@), index as int, h@),
            nodes_view(old(tape)@),
            nodes_view(final(tape)@),
        ),
        r matches Ok(n) ==> index < n <= lines@.len(),
    decreases lines@.len() - index, 2int,
{
    let ghost prefix = nodes_view(old(tape)@);
    let n = lines.len();
    if h.length == 0 {
        push_node(tape, Node::Array(0));
        proof {
            assert(nodes_view(tape@) =~= prefix + seq![NodeModel::Array(0)]);
        }
        return Ok(index + 1);
    }
    if h.fields.is_none() {
        if let Some(inline) = &h.inline_values {
            let pos = tape.len();
            push_node(tape, Node::Array(0));
            let count = push_delimited(inline.as_slice(), h.delimiter, tape);
            proof {
                lemma_nodes_view_len(tape@);
                lemma_nodes_view_len(old(tape)@);
            }
            set_node(tape, pos, Node::Array(count));
            proof {
                let items = delimited_nodes(inline@, h.delimiter);
                assert(nodes_view(tape@) =~= prefix + (seq![NodeModel::Array(items.len())] + items));
            }
            return Ok(index + 1);
        }
    }
    if let Some(fields) = &h.fields {
        let pos = tape.len();
        push_node(tape, Node::Array(0));
        let (count, next) = emit_tabular_array(lines, index, h.length, fields, h.delimiter, tape);
        proof {
            lemma_nodes_view_len(tape@);
            lemma_nodes_view_len(old(tape)@);
        }
        set_node(tape, pos, Node::Array(count));
        proof {
            let (c, rows, nx) = tape_rows(
                lines_view(lines@),
                lines@[index as int].depth as nat,
                index + 1,
                h.length as nat,
                char_vecs_view(fields@),
                h.delimiter,
                0,
                Seq::empty(),
            );
            assert(nodes_view(tape@) =~= prefix + (seq![NodeModel::Array(c)] + rows));
        }
        return Ok(next);
    }
    emit_expanded_array(lines, index, h.length, tape)
}

/// Appends the items of the expanded array whose header is line
/// `header_idx`, and tells the line after them.
fn emit_expanded_array(lines: &Vec<ParsedLine>, header_idx: usize, expected: usize, tape: &mut Vec<Node>) -> (r: Result<
    usize,
    DecodeError,
>)
    requires
        header_idx < lines@.len(),
    ensures
        match expanded_loop(
            lines_view(lines@),
            lines@[header_idx as int].depth as nat,
            header_idx + 1,
            expected as nat,
            0,
            Seq::empty(),
        ) {
            Ok((c, nodes, next)) => r matches Ok(rn) && rn as int == next && nodes_view(
                final(tape)@,
            ) == nodes_view(old(tape)@) + (seq![NodeModel::Array(c)] + nodes),
            Err(e) => r == Err::<usize, DecodeError>(e),
        },
        r matches Ok(n) ==> header_idx < n <= lines@.len(),
    decreases lines@.len() - header_idx - 1, 4int,
{
    let ghost lv = lines_view(lines@);
    let ghost prefix = nodes_view(old(tape)@);
    let base = lines[header_idx].depth;
    let n = lines.len();
    let arr_pos = tape.len();
    push_node(tape, Node::Array(0));
    let ghost head = nodes_view(tape@);
    let mut count: usize = 0;
    let mut i = header_idx + 1;
    let ghost mut acc: Nodes = Seq::empty();
    proof {
        assert(nodes_view(tape@) =~= head + acc);
    }
    while i < n && count < expected && lines[i].depth >= base && lines[i].depth - base == 1
        invariant
            header_idx < i <= n,
            n == lines@.len(),
            lv == lines_view(lines@),
            base == lines@[header_idx as int].depth,
            arr_pos == prefix.len(),
            head == prefix.push(NodeModel::Array(0)),
            nodes_view(tape@) == head + acc,
            expanded_loop(lv, base as nat, header_idx + 1, expected as nat, 0, Seq::empty())
                == expanded_loop(lv, base as nat, i as int, expected as nat, count as nat, acc),
        decreases n - i,
    {
        let c = lines[i].content.as_slice();
        if has_prefix(c, &['-', ' ']) {
            let item = slice_chars(c, 2, c.len());
            match try_array_header(item.as_slice()) {
                Some(h) => {
                    if h.key.is_some() {
                        match emit_list_item_object(lines, i, base, tape) {
                            Err(e) => {
                                return Err(e);
                            },
                            Ok(next) => {
                                proof {
                                    let (nodes, _) = tape_list_item(lv, i as int, base as nat)->Ok_0;
                                    let acc2 = acc + nodes;
                                    assert(nodes_view(tape@) =~= head + acc2);
                                    acc = acc2;
                                }
                                count = count + 1;
                                i = next;
                                continue;
                            },
                        }
                    } else if let Some(inline) = &h.inline_values {
                        let sub_pos = tape.len();
                        push_node(tape, Node::Array(0));
                        let sub = push_delimited(inline.as_slice(), h.delimiter, tape);
                        proof {
                            lemma_nodes_view_len(tape@);
                        }
                        set_node(tape, sub_pos, Node::Array(sub));
                        proof {
                            let items = delimited_nodes(inline@, h.delimiter);
                            let acc2 = acc + seq![NodeModel::Array(items.len())] + items;
                            assert(nodes_view(tape@) =~= head + acc2);
                            acc = acc2;
                        }
                        count = count + 1;
                    }
                },
                None => {
                    if has_char(item.as_slice(), ':') {
                        match emit_list_item_object(lines, i, base, tape) {
                            Err(e) => {
                                return Err(e);
                            },
                            Ok(next) => {
                                proof {
                                    let (nodes, _) = tape_list_item(lv, i as int, base as nat)->Ok_0;
                                    let acc2 = acc + nodes;
                                    assert(nodes_view(tape@) =~= head + acc2);
                                    acc = acc2;
                                }
                                count = count + 1;
                                i = next;
                                continue;
                            },
                        }
                    } else {
                        push_inline_value(item.as_slice(), tape);
                        proof {
                            let acc2 = acc + inline_nodes(item@);
                            assert(nodes_view(tape@) =~= head + acc2);
                            acc = acc2;
                        }
                        count = count + 1;
                    }
                },
            }
        }
        i = i + 1;
    }
    proof {
        lemma_nodes_view_len(tape@);
    }
    set_node(tape, arr_pos, Node::Array(count));
    proof {
        assert(nodes_view(tape@) =~= prefix + (seq![NodeModel::Array(count as nat)] + acc));
    }
    Ok(i)
}

// ---------------------------------------------------------------------------
// Values as tapes, and the tape decoder
// ---------------------------------------------------------------------------
/// Appends the nodes of a decoded value, with every string and key left empty.
fn push_value_nodes(v: &Value, tape: &mut Vec<Node>)
    ensures
        nodes_view(final(tape)@) == nodes_view(old(tape)@) + value_nodes(v@),
    decreases height(v@),
{
    let ghost prefix = nodes_view(old(tape)@);
    match v {
        Value::Null => push_node(tape, Node::Null),
        Value::Bool(b) => push_node(tape, Node::Bool(*b)),
        Value::Integer(n) => push_node(tape, Node::Integer(*n)),
        Value::Float(t) => push_node(tape, Node::Float(t.clone())),
        Value::String(_) => push_node(tape, Node::String(String::new())),
        Value::Array(arr) => {
            let ghost a = view_values(arr@);
            proof {
                lemma_view_values(arr@);
                lemma_seq_height(a);
            }
            push_node(tape, Node::Array(arr.len()));
            let ghost head = nodes_view(tape@);
            let mut k: usize = 0;
            proof {
                assert(a.take(0) =~= Seq::<SpecValue>::empty());
                assert(nodes_view(tape@) =~= head + items_nodes(a.take(0)));
            }
            while k < arr.len()
                invariant
                    k <= arr@.len(),
                    a == view_values(arr@),
                    a.len() == arr@.len(),
                    forall|j: int| 0 <= j < arr@.len() ==> #[trigger] a[j] == arr@[j]@,
                    forall|j: int| 0 <= j < a.len() ==> height(#[trigger] a[j]) <= seq_height(a),
                    height(v@) == 1 + seq_height(a),
                    nodes_view(tape@) == head + items_nodes(a.take(k as int)),
                decreases arr@.len() - k,
            {
                proof {
                    assert(a[k as int] == arr@[k as int]@);
                    assert(height(a[k as int]) <= seq_height(a));
                }
                push_value_nodes(&arr[k], tape);
                proof {
                    assert(a.take(k + 1).drop_last() =~= a.take(k as int));
                    assert(a.take(k + 1).last() == a[k as int]);
                    assert(nodes_view(tape@) =~= head + items_nodes(a.take(k + 1)));
                }
                k = k + 1;
            }
            proof {
                assert(a.take(a.len() as int) =~= a);
                assert(nodes_view(tape@) =~= prefix + value_nodes(v@));
            }
        },
        Value::Object(obj) => {
            let ghost m = obj@;
            proof {
                lemma_entries_height(m);
            }
            push_node(tape, Node::Object(obj.len()));
            let ghost head = nodes_view(tape@);
            let mut k: usize = 0;
            proof {
                assert(m.take(0) =~= Seq::<(Seq<char>, SpecValue)>::empty());
                assert(nodes_view(tape@) =~= head + entries_nodes(m.take(0)));
            }
            while k < obj.len()
                invariant
                    k <= m.len(),
                    m == obj@,
                    forall|j: int| 0 <= j < m.len() ==> height(#[trigger] m[j].1) <= entries_height(m),
                    height(v@) == 1 + entries_height(m),
                    nodes_view(tape@) == head + entries_nodes(m.take(k as int)),
                decreases m.len() - k,
            {
                push_node(tape, Node::Key(String::new()));
                let (_key, val) = obj.entry(k);
                proof {
                    assert(m[k as int] == (_key@, val@));
                    assert(height(m[k as int].1) <= entries_height(m));
                }
                push_value_nodes(val, tape);
                proof {
                    assert(m.take(k + 1).drop_last() =~= m.take(k as int));
                    assert(m.take(k + 1).last() == m[k as int]);
                    assert(nodes_view(tape@) =~= head + entries_nodes(m.take(k + 1)));
                }
                k = k + 1;
            }
            proof {
                assert(m.take(m.len() as int) =~= m);
                assert(nodes_view(tape@) =~= prefix + value_nodes(v@));
            }
        },
    }
}

/// The tape of a whole document from its lines.
fn emit_document(lines: &Vec<ParsedLine>) -> (r: Result<Vec<Node>, DecodeError>)
    ensures
        match tape_document(lines_view(lines@)) {
            Ok(nodes) => r matches Ok(t) && nodes_view(t@) == nodes,
            Err(e) => r == Err::<Vec<Node>, DecodeError>(e),
        },
{
    let mut tape: Vec<Node> = Vec::new();
    proof {
        assert(nodes_view(tape@) =~= Seq::<NodeModel>::empty());
    }
    if lines.len() == 0 {
        push_node(&mut tape, Node::Object(0));
        proof {
            assert(nodes_view(tape@) =~= seq![NodeModel::Object(0)]);
        }
        return Ok(tape);
    }
    let first = lines[0].content.as_slice();
    if lines.len() == 1 && chars_eq(first, &['{', '}']) {
        push_node(&mut tape, Node::Object(0));
        proof {
            assert(nodes_view(tape@) =~= seq![NodeModel::Object(0)]);
        }
        return Ok(tape);
    }
    if let Some(h) = try_array_header(first) {
        if h.key.is_none() {
            return match emit_array_from_header(lines, 0, &h, &mut tape) {
                Ok(_) => {
                    proof {
                        let (nodes, _) = tape_array(lines_view(lines@), 0, h@)->Ok_0;
                        assert(nodes_view(tape@) =~= nodes);
                    }
                    Ok(tape)
                },
                Err(e) => Err(e),
            };
        }
    }
    if lines.len() == 1 && !has_char(first, ':') {
        let n = primitive_node_of(first);
        push_node(&mut tape, n);
        proof {
            assert(nodes_view(tape@) =~= seq![primitive_node(lines_view(lines@)[0].content)]);
        }
        return Ok(tape);
    }
    match emit_object(lines, 0, 0, &mut tape) {
        Ok(_) => {
            proof {
                let (nodes, _) = tape_object(lines_view(lines@), 0, 0)->Ok_0;
                assert(nodes_view(tape@) =~= nodes);
            }
            Ok(tape)
        },
        Err(e) => Err(e),
    }
}

/// Reads SCON text onto tapes.  Like [`crate::Decoder`], it counts `indent`
/// spaces per level and, unless an indent was set, detects the indent of each
/// text it reads and keeps it.
pub struct TapeDecoder {
    indent: usize,
    indent_auto_detect: bool,
}

impl TapeDecoder {
    /// The spaces per level.
    pub closed spec fn spec_indent(&self) -> nat {
        self.indent as nat
    }

    /// Whether the indent is detected from each text.
    pub closed spec fn spec_auto(&self) -> bool {
        self.indent_auto_detect
    }

    /// A tape decoder that detects the indent, one space per level until it has.
    pub fn new() -> (d: TapeDecoder)
        ensures
            d.spec_indent() == 1,
            d.spec_auto(),
    {
        TapeDecoder { indent: 1, indent_auto_detect: true }
    }

    /// Reads `input` onto a tape.
    pub fn decode(&mut self, input: &str) -> (r: Result<Tape, String>)
        ensures
            final(self).spec_auto() == old(self).spec_auto(),
            final(self).spec_indent() == next_indent(
                old(self).spec_indent(),
                old(self).spec_auto(),
                input@,
            ),
            match taped(old(self).spec_indent(), old(self).spec_auto(), input@) {
                Ok(nodes) => r matches Ok(t) && nodes_view(t.nodes@) == nodes,
                Err(e) => r matches Err(m) && m@ == e.text(),
            },
    {
        let t = chars_of(input);
        if !has_char(t.as_slice(), '\n') && has_char(t.as_slice(), ';') {
            let mut decoder = Decoder::new();
            let v = match decoder.decode(input) {
                Ok(v) => v,
                Err(m) => {
                    return Err(m);
                },
            };
            let mut nodes: Vec<Node> = Vec::new();
            proof {
                assert(nodes_view(nodes@) =~= Seq::<NodeModel>::empty());
            }
            push_value_nodes(&v, &mut nodes);
            proof {
                assert(nodes_view(nodes@) =~= value_nodes(v@));
            }
            return Ok(Tape { nodes });
        }
        if self.indent_auto_detect {
            match find_indent_after_newline(t.as_slice()) {
                Some(n) => {
                    self.indent = n;
                },
                None => match find_first_indent(t.as_slice()) {
                    Some(n) => {
                        self.indent = n;
                    },
                    None => {},
                },
            }
        }
        let lines = split_lines(t.as_slice(), self.indent);
        match emit_document(&lines) {
            Ok(nodes) => Ok(Tape { nodes }),
            Err(e) => Err(e.message()),
        }
    }
}

impl Default for TapeDecoder {
    fn default() -> (d: TapeDecoder)
        ensures
            d.spec_indent() == 1,
            d.spec_auto(),
    {
        TapeDecoder::new()
    }
}

} // verus!
