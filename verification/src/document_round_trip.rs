//! What the decoder reads back of a whole document that the encoder writes.
use vstd::prelude::*;
use crate::decoder::{
    decoded, detected_indent, first_indent, indent_after_newline, is_minified, line_of, lines_model,
    next_indent, skipped, text_lines,
};
use crate::format::{
    all_primitive, array_text, continuation_entry_text, continuation_text, count_text,
    document_text, entry_text, first_field_text, item_text, items_expanded_text, list_item_text, keys_of, opt_key_text, tabular_fields, escape, items_text, safe_unquoted, value_unsafe_byte, value_unsafe_char, Quoting, escape_char, key_text, key_unsafe_byte, object_text, primitive_text, quoted,
    spaces, valid_unquoted_key, Style,
};
use crate::layout::{
    continuation_lines, document_of, dash, expanded_lines, item_content, key_value_lines,
    list_item_lines, object_lines, skip_deeper, LineModel,
};
use crate::inline::primitive_of;
use crate::inline::{inline_value, key_of, try_header_of, DecodeError, HeaderModel};
use crate::array_round_trip::{
    array_key_ok, array_line, inline_array_reads_back, item_reads_back, lemma_array_header,
    lemma_array_line, lemma_delimited_items, lemma_list_header,
};
use crate::layout::array_lines;
use crate::one_line_round_trip::{
    lemma_array_line_passes, lemma_entry_line_passes, lemma_min_plain, lemma_minified_one_line,
    lemma_primitive_passes, min_passes,
};
use crate::tabular_round_trip::{
    lemma_table_array_lines, lemma_table_header, lemma_table_header_line, lemma_table_shape,
    lemma_table_text, lemma_tabular_fields, table_header, table_lines, tabular_reads_back,
};
use crate::round_trip::{
    all_ascii, float_reads_back, is_ascii_char, lemma_closing_quote, lemma_nat_text, lemma_encode_ascii_char,
    lemma_primitive_round_trip, lemma_scan_escape, lemma_trim_id, lemma_unescape_escape, reads_back,
};
use crate::syntax::{
    closing_quote, colon_scan, decimal_value, digits_end, key_colon, parse_usize, quote_scan,
    split_bounds, split_scan, unescape,
};
use crate::round_trip::lemma_digits_end_all;
use crate::text::lemma_encode_utf8_concat;
use vstd::utf8::encode_utf8;
use crate::value::{distinct_keys, key_index, key_index_from, lemma_key_index_from, map_insert, SpecValue};
use crate::text::{
    contains_char, find, find_from, int_text, is_ascii_ws, is_digit, is_ws,
    nat_text, starts_with, lead_spaces, lead_spaces_from, lead_ws, lemma_find_from,
    lemma_lead_ws, lemma_trail_ws, lines, lines_from, strip_cr, trail_ws, trim,
};

verus! {

// ---------------------------------------------------------------------------
// Lines and the text they make
// ---------------------------------------------------------------------------
/// A line written with one space per level.
pub open spec fn line_text(l: LineModel) -> Seq<char> {
    spaces(l.depth) + l.content
}

/// Lines joined by line feeds.
pub open spec fn joined(ls: Seq<LineModel>) -> Seq<char>
    decreases ls.len(),
{
    if ls.len() == 0 {
        Seq::empty()
    } else if ls.len() == 1 {
        line_text(ls[0])
    } else {
        line_text(ls[0]) + seq!['\n'] + joined(ls.drop_first())
    }
}

/// A line that reads back as itself: its content is not empty, has no
/// whitespace at its ends and no line feed, and is no comment or directive.
pub open spec fn clean_line(l: LineModel) -> bool {
    &&& l.content.len() > 0
    &&& trim(l.content) == l.content
    &&& !contains_char(l.content, '\n')
    &&& !skipped(l.content)
}

pub open spec fn clean_lines(ls: Seq<LineModel>) -> bool {
    forall|i: int| 0 <= i < ls.len() ==> clean_line(#[trigger] ls[i])
}

/// Joining two runs of lines puts a line feed between them.
pub(crate) proof fn lemma_joined_concat(a: Seq<LineModel>, b: Seq<LineModel>)
    requires
        a.len() > 0,
        b.len() > 0,
    ensures
        joined(a + b) == joined(a) + seq!['\n'] + joined(b),
    decreases a.len(),
{
    if a.len() == 1 {
        assert((a + b).drop_first() =~= b);
        assert((a + b)[0] == a[0]);
    } else {
        assert((a + b).drop_first() =~= a.drop_first() + b);
        assert((a + b)[0] == a[0]);
        lemma_joined_concat(a.drop_first(), b);
    }
}

/// Trimmed content that is not empty starts and ends with no whitespace.
pub(crate) proof fn lemma_trimmed_ends(c: Seq<char>)
    requires
        c.len() > 0,
        trim(c) == c,
    ensures
        !is_ws(c[0]),
        !is_ws(c.last()),
{
    let a = lead_ws(c, 0);
    lemma_lead_ws(c, 0);
    lemma_trail_ws(c, a, c.len() as int);
    let b = trail_ws(c, a, c.len() as int);
    assert(c.subrange(a, b).len() == c.len());
    assert(a == 0 && b == c.len());
}

proof fn lemma_lead_ws_spaces(s: Seq<char>, d: nat, k: int)
    requires
        0 <= k <= d < s.len(),
        forall|i: int| 0 <= i < d ==> s[i] == ' ',
        !is_ws(s[d as int]),
    ensures
        lead_ws(s, k) == d,
        lead_spaces_from(s, k) == d,
    decreases d - k,
{
    if k < d {
        assert(is_ws(s[k]));
        lemma_lead_ws_spaces(s, d, k + 1);
    }
}

/// Spaces before trimmed text are its leading spaces, and trimming drops them.
pub(crate) proof fn lemma_trim_spaces(d: nat, c: Seq<char>)
    requires
        c.len() > 0,
        trim(c) == c,
    ensures
        trim(spaces(d) + c) == c,
        lead_spaces(spaces(d) + c) == d,
{
    let s = spaces(d) + c;
    lemma_trimmed_ends(c);
    assert(s[d as int] == c[0]);
    assert(forall|i: int| 0 <= i < d ==> s[i] == ' ');
    lemma_lead_ws_spaces(s, d, 0);
    assert(s[s.len() - 1] == c.last());
    assert(trail_ws(s, d as int, s.len() as int) == s.len());
    assert(trim(s) =~= c);
}

/// A written line gives back the line.
pub(crate) proof fn lemma_line_of_text(l: LineModel)
    requires
        clean_line(l),
    ensures
        line_of(line_text(l), 1) == seq![l],
{
    lemma_trim_spaces(l.depth, l.content);
}

/// Splitting joined clean lines gives the written lines.
proof fn lemma_lines_joined(t: Seq<char>, i: int, ls: Seq<LineModel>)
    requires
        0 <= i <= t.len(),
        ls.len() > 0,
        clean_lines(ls),
        t.subrange(i, t.len() as int) == joined(ls),
    ensures
        lines_from(t, i) == ls.map_values(|l: LineModel| line_text(l)),
    decreases ls.len(),
{
    let l0 = ls[0];
    let s0 = line_text(l0);
    assert(clean_line(l0));
    lemma_trimmed_ends(l0.content);
    assert forall|k: int| 0 <= k < s0.len() implies s0[k] != '\n' by {
        if k >= l0.depth {
            lemma_find_from(l0.content, '\n', 0);
            assert(s0[k] == l0.content[k - l0.depth]);
        }
    }
    assert(s0.len() > 0);
    assert(t.len() - i == joined(ls).len());
    assert forall|k: int| i <= k < i + s0.len() implies t[k] != '\n' by {
        assert(t.subrange(i, t.len() as int)[k - i] == joined(ls)[k - i]);
        if ls.len() == 1 {
            assert(joined(ls)[k - i] == s0[k - i]);
        } else {
            assert(joined(ls)[k - i] == s0[k - i]);
        }
    }
    lemma_find_from(t, '\n', i);
    assert(s0.last() == l0.content.last());
    assert(strip_cr(s0) == s0);
    if ls.len() == 1 {
        assert(t.subrange(i, t.len() as int) == s0);
        assert(find_from(t, '\n', i) == -1) by {
            if find_from(t, '\n', i) != -1 {
                assert(find_from(t, '\n', i) < i + s0.len());
            }
        }
        assert(ls.map_values(|l: LineModel| line_text(l)) =~= seq![s0]);
    } else {
        let j = i + s0.len();
        let rest = ls.drop_first();
        assert(t[j] == '\n') by {
            assert(t.subrange(i, t.len() as int)[s0.len() as int] == joined(ls)[s0.len() as int]);
        }
        assert(find_from(t, '\n', i) == j);
        assert(t.subrange(i, j) =~= s0) by {
            assert forall|k: int| 0 <= k < s0.len() implies t.subrange(i, j)[k] == s0[k] by {
                assert(t.subrange(i, t.len() as int)[k] == joined(ls)[k]);
            }
        }
        assert(t.subrange(j + 1, t.len() as int) =~= joined(rest)) by {
            assert forall|k: int| 0 <= k < joined(rest).len() implies t.subrange(
                j + 1,
                t.len() as int,
            )[k] == joined(rest)[k] by {
                assert(t.subrange(i, t.len() as int)[s0.len() + 1 + k] == joined(ls)[s0.len() + 1
                    + k]);
            }
        }
        assert(clean_lines(rest)) by {
            assert forall|k: int| 0 <= k < rest.len() implies clean_line(#[trigger] rest[k]) by {
                assert(rest[k] == ls[k + 1]);
            }
        }
        lemma_lines_joined(t, j + 1, rest);
        assert(ls.map_values(|l: LineModel| line_text(l)) =~= seq![s0] + rest.map_values(
            |l: LineModel| line_text(l),
        ));
    }
}

proof fn lemma_lines_model_texts(ls: Seq<LineModel>)
    requires
        clean_lines(ls),
    ensures
        lines_model(ls.map_values(|l: LineModel| line_text(l)), 1) == ls,
    decreases ls.len(),
{
    if ls.len() > 0 {
        let m = ls.map_values(|l: LineModel| line_text(l));
        assert(m[0] == line_text(ls[0]));
        assert(m.drop_first() =~= ls.drop_first().map_values(|l: LineModel| line_text(l)));
        assert(clean_line(ls[0]));
        lemma_line_of_text(ls[0]);
        assert(clean_lines(ls.drop_first())) by {
            assert forall|k: int| 0 <= k < ls.drop_first().len() implies clean_line(
                #[trigger] ls.drop_first()[k],
            ) by {
                assert(ls.drop_first()[k] == ls[k + 1]);
            }
        }
        lemma_lines_model_texts(ls.drop_first());
        assert(seq![ls[0]] + ls.drop_first() =~= ls);
    } else {
        assert(ls.map_values(|l: LineModel| line_text(l)) =~= Seq::<Seq<char>>::empty());
    }
}

/// Clean lines, joined and read with one space per level, are read back.
pub proof fn lemma_text_lines_joined(ls: Seq<LineModel>)
    requires
        ls.len() > 0,
        clean_lines(ls),
    ensures
        text_lines(joined(ls), 1) == ls,
{
    let t = joined(ls);
    assert(t.subrange(0, t.len() as int) =~= t);
    lemma_lines_joined(t, 0, ls);
    lemma_lines_model_texts(ls);
}

// ---------------------------------------------------------------------------
// The lines of an object
// ---------------------------------------------------------------------------
/// The lines of one entry at `depth`: a primitive, an empty object or array,
/// an array of primitives on the key's line, a nested object on the lines
/// below.
pub open spec fn entry_lines(st: Style, k: Seq<char>, v: SpecValue, depth: nat) -> Seq<LineModel>
    decreases v, 0int,
{
    match v {
        SpecValue::Object(inner) => if inner.len() == 0 {
            seq![LineModel { depth, content: key_text(k) + seq![':', ' ', '{', '}'] }]
        } else {
            seq![LineModel { depth, content: key_text(k) + seq![':'] }] + obj_lines(
                st,
                inner,
                depth + 1,
            )
        },
        SpecValue::Array(a) => if a.len() == 0 {
            seq![LineModel { depth, content: key_text(k) + seq![':', ' ', '[', ']'] }]
        } else if all_primitive(a) {
            seq![
                LineModel {
                    depth,
                    content: key_text(k) + count_text(a.len()) + seq![':', ' '] + items_text(st, a),
                },
            ]
        } else {
            match tabular_fields(a) {
                Some(fs) => table_lines(key_text(k), st, fs, a, depth),
                None => seq![LineModel { depth, content: key_text(k) + count_text(a.len()) + seq![':'] }]
                    + items_lines(st, a, depth + 1),
            }
        },
        _ => seq![LineModel { depth, content: key_text(k) + seq![':', ' '] + primitive_text(st, v) }],
    }
}

/// A line of a list item: `- ` and then `rest`.
pub open spec fn dash_line(depth: nat, rest: Seq<char>) -> LineModel {
    LineModel { depth, content: seq!['-', ' '] + rest }
}

/// What follows the key of the first entry of a list item on its line: a
/// primitive, an empty object or array, or an array of primitives.
pub open spec fn first_tail(st: Style, v: SpecValue) -> Seq<char> {
    match v {
        SpecValue::Array(b) => if b.len() == 0 {
            seq![':', ' ', '[', ']']
        } else {
            count_text(b.len()) + seq![':', ' '] + items_text(st, b)
        },
        SpecValue::Object(_) => seq![':', ' ', '{', '}'],
        _ => seq![':', ' '] + primitive_text(st, v),
    }
}

/// The lines of an object written as a list item at `depth`: its first entry
/// on the `- ` line, the others one level deeper.
pub open spec fn list_object_lines(st: Style, o: Seq<(Seq<char>, SpecValue)>, depth: nat) -> Seq<
    LineModel,
>
    decreases o, 1int,
{
    if o.len() == 0 {
        seq![dash_line(depth, seq!['{', '}'])]
    } else {
        seq![dash_line(depth, key_text(o[0].0) + first_tail(st, o[0].1))] + obj_lines(
            st,
            o.drop_first(),
            depth + 1,
        )
    }
}

/// The lines of one item of an expanded array at `depth`.
pub open spec fn expanded_item_lines(st: Style, v: SpecValue, depth: nat) -> Seq<LineModel>
    decreases v, 0int,
{
    match v {
        SpecValue::Object(o) => list_object_lines(st, o, depth),
        SpecValue::Array(b) => if b.len() == 0 {
            seq![dash_line(depth, seq!['[', ']'])]
        } else {
            seq![dash_line(depth, count_text(b.len()) + seq![':', ' '] + items_text(st, b))]
        },
        _ => seq![dash_line(depth, primitive_text(st, v))],
    }
}

/// The lines of the items of an expanded array at `depth`.
pub open spec fn items_lines(st: Style, a: Seq<SpecValue>, depth: nat) -> Seq<LineModel>
    decreases a, 2int,
{
    if a.len() == 0 {
        Seq::empty()
    } else {
        expanded_item_lines(st, a[0], depth) + items_lines(st, a.drop_first(), depth)
    }
}

/// The lines of the entries of an object at `depth`.
pub open spec fn obj_lines(st: Style, m: Seq<(Seq<char>, SpecValue)>, depth: nat) -> Seq<LineModel>
    decreases m, 1int,
{
    if m.len() == 0 {
        Seq::empty()
    } else {
        entry_lines(st, m[0].0, m[0].1, depth) + obj_lines(st, m.drop_first(), depth)
    }
}

/// A key that reads back: written bare, it has no whitespace at its ends.
pub open spec fn key_reads_back(k: Seq<char>) -> bool {
    valid_unquoted_key(k) ==> trim(k) == k
}

/// The line of an entry, its key, a colon and `tail`, is taken for the entry
/// and not for an array header.  This can only fail where the key holds `[`
/// (a key with `[` is written in quotes): the decoder takes a line for an
/// array header where its first `[` comes before its first colon and is
/// followed by a `]` and then by a colon.
pub open spec fn key_line_ok(k: Seq<char>, tail: Seq<char>) -> bool {
    contains_char(k, '[') ==> try_header_of(key_text(k) + seq![':'] + tail) is None
}

/// A bare key that, followed by a colon, starts a directive line: `s`, `r`
/// or `sec`.
pub open spec fn directive_key(k: Seq<char>) -> bool {
    valid_unquoted_key(k) && (k == seq!['s'] || k == seq!['r'] || k == seq!['s', 'e', 'c'])
}

/// An entry that reads back: its key reads back, its line is taken for no
/// array header (see `key_line_ok`), and its value is a
/// primitive that reads back, an empty array,
/// or an object of such entries with no repeated key, its key then being no
/// directive; or an array with items that reads back inline, as a table or as
/// a list, under a key that can stand before an array header.
pub open spec fn entry_reads_back(st: Style, k: Seq<char>, v: SpecValue) -> bool
    decreases v, 0int,
{
    &&& key_reads_back(k)
    &&& key_line_ok(k, entry_tail(st, v))
    &&& match v {
        SpecValue::Object(m) => !directive_key(k) && distinct_keys(m) && entries_read_back(st, m),
        SpecValue::Array(a) => if a.len() == 0 {
            !directive_key(k)
        } else {
            (inline_array_reads_back(st, a) || tabular_reads_back(st, a) || expanded_reads_back(
                st,
                a,
            )) && array_key_ok(k)
        },
        _ => !directive_key(k) && reads_back(st, v),
    }
}

/// What follows the colon on the line of an entry whose value is no array
/// with items: ` {}`, nothing before the lines of a nested object, ` []`, or a
/// space and the primitive's text.
pub open spec fn entry_tail(st: Style, v: SpecValue) -> Seq<char> {
    match v {
        SpecValue::Object(m) => if m.len() == 0 {
            seq![' ', '{', '}']
        } else {
            Seq::empty()
        },
        SpecValue::Array(_) => seq![' ', '[', ']'],
        _ => seq![' '] + primitive_text(st, v),
    }
}

pub open spec fn entries_read_back(st: Style, m: Seq<(Seq<char>, SpecValue)>) -> bool
    decreases m, 1int,
{
    m.len() == 0 || (entry_reads_back(st, m[0].0, m[0].1) && entries_read_back(st, m.drop_first()))
}

/// The first entry of a list item that reads back: its key reads back, its
/// line is taken for no array header (see `key_line_ok`), and its value is a
/// primitive that reads back, an empty object or array, or an inline array
/// that reads back under a key that can stand before an array header.
pub open spec fn first_field_reads_back(st: Style, k: Seq<char>, v: SpecValue) -> bool {
    &&& key_reads_back(k)
    &&& key_line_ok(k, short_tail(st, v))
    &&& match v {
        SpecValue::Object(o) => o.len() == 0,
        SpecValue::Array(b) => b.len() == 0 || (inline_array_reads_back(st, b) && array_key_ok(k)),
        _ => reads_back(st, v),
    }
}

/// An object that reads back as a list item: not empty, no repeated key, a
/// first entry that reads back as such, and other entries that read back.
pub open spec fn list_object_reads_back(st: Style, o: Seq<(Seq<char>, SpecValue)>) -> bool
    decreases o, 1int,
{
    &&& o.len() > 0
    &&& distinct_keys(o)
    &&& first_field_reads_back(st, o[0].0, o[0].1)
    &&& entries_read_back(st, o.drop_first())
}

/// An item of an expanded array that reads back: an empty object or array, an
/// object that reads back as a list item, an inline array that reads back, or
/// a primitive that reads back with no colon in its text.
pub open spec fn list_item_reads_back(st: Style, v: SpecValue) -> bool
    decreases v, 0int,
{
    match v {
        SpecValue::Object(o) => o.len() == 0 || list_object_reads_back(st, o),
        SpecValue::Array(b) => b.len() == 0 || inline_array_reads_back(st, b),
        _ => reads_back(st, v) && !contains_char(primitive_text(st, v), ':'),
    }
}

/// Each item of a list reads back as such.
pub open spec fn items_read_back(st: Style, a: Seq<SpecValue>) -> bool
    decreases a, 1int,
{
    a.len() == 0 || (list_item_reads_back(st, a[0]) && items_read_back(st, a.drop_first()))
}

/// An array written expanded that reads back: at most `usize::MAX` items, not
/// all primitives and no table, each item reading back.
pub open spec fn expanded_reads_back(st: Style, a: Seq<SpecValue>) -> bool
    decreases a, 2int,
{
    &&& 0 < a.len() <= usize::MAX
    &&& !all_primitive(a)
    &&& tabular_fields(a) is None
    &&& items_read_back(st, a)
}

/// The items of an inline array that reads back are primitives.
proof fn lemma_items_primitive(st: Style, a: Seq<SpecValue>)
    requires
        inline_array_reads_back(st, a),
    ensures
        all_primitive(a),
{
    assert forall|i: int| 0 <= i < a.len() implies (#[trigger] a[i]).is_primitive() by {
        assert(item_reads_back(st, a[i]));
    }
}

/// The lines of an object end with the lines of its last entry.
proof fn lemma_obj_lines_last(st: Style, m: Seq<(Seq<char>, SpecValue)>, depth: nat)
    requires
        m.len() > 0,
    ensures
        obj_lines(st, m, depth) == obj_lines(st, m.drop_last(), depth) + entry_lines(
            st,
            m.last().0,
            m.last().1,
            depth,
        ),
    decreases m.len(),
{
    if m.len() == 1 {
        assert(m.drop_first().len() == 0);
        assert(m.drop_last().len() == 0);
        assert(obj_lines(st, m.drop_first(), depth) =~= Seq::<LineModel>::empty());
        assert(obj_lines(st, m.drop_last(), depth) =~= Seq::<LineModel>::empty());
        assert(m.last() == m[0]);
        assert(obj_lines(st, m, depth) =~= entry_lines(st, m[0].0, m[0].1, depth));
        assert(obj_lines(st, m, depth) =~= obj_lines(st, m.drop_last(), depth) + entry_lines(
            st,
            m.last().0,
            m.last().1,
            depth,
        ));
    } else {
        let r = m.drop_first();
        lemma_obj_lines_last(st, r, depth);
        assert(r.drop_last() =~= m.drop_last().drop_first());
        assert(r.last() == m.last());
        assert(m.drop_last()[0] == m[0]);
        assert(obj_lines(st, m, depth) =~= obj_lines(st, m.drop_last(), depth) + entry_lines(
            st,
            m.last().0,
            m.last().1,
            depth,
        ));
    }
}

/// The conditions hold of the entries before the last and of the last one.
proof fn lemma_entries_last(st: Style, m: Seq<(Seq<char>, SpecValue)>)
    requires
        m.len() > 0,
        entries_read_back(st, m),
    ensures
        entries_read_back(st, m.drop_last()),
        entry_reads_back(st, m.last().0, m.last().1),
    decreases m.len(),
{
    if m.len() > 1 {
        let r = m.drop_first();
        lemma_entries_last(st, r);
        assert(r.drop_last() =~= m.drop_last().drop_first());
        assert(m.drop_last()[0] == m[0]);
    } else {
        assert(m.last() == m[0]);
    }
}

/// An entry is written as its lines joined.
proof fn lemma_entry_text(st: Style, k: Seq<char>, v: SpecValue, depth: nat)
    requires
        entry_reads_back(st, k, v),
    ensures
        entry_lines(st, k, v, depth).len() > 0,
        entry_text(1, st, k, v, depth) == joined(entry_lines(st, k, v, depth)),
    decreases v, 0int,
{
    assert(1 * depth == depth);
    match v {
        SpecValue::Object(inner) => {
            if inner.len() == 0 {
                assert(entry_text(1, st, k, v, depth) =~= line_text(entry_lines(st, k, v, depth)[0]));
            } else {
                let first = seq![LineModel { depth, content: key_text(k) + seq![':'] }];
                lemma_object_text(st, inner, depth + 1);
                lemma_joined_concat(first, obj_lines(st, inner, depth + 1));
                assert(entry_text(1, st, k, v, depth) =~= joined(first) + seq!['\n'] + joined(
                    obj_lines(st, inner, depth + 1),
                ));
            }
        },
        SpecValue::Array(a) => {
            if a.len() > 0 && tabular_reads_back(st, a) {
                lemma_tabular_fields(st, a);
                lemma_table_text(Some(k), st, a, depth);
                assert(opt_key_text(Some(k)) == key_text(k));
                assert(entry_lines(st, k, v, depth) == table_lines(
                    key_text(k),
                    st,
                    keys_of(a[0]->Object_0),
                    a,
                    depth,
                ));
            } else if a.len() > 0 && expanded_reads_back(st, a) {
                let first = seq![LineModel { depth, content: key_text(k) + count_text(a.len()) + seq![':'] }];
                lemma_items_expanded_text(st, a, depth);
                lemma_joined_concat(first, items_lines(st, a, depth + 1));
                assert(entry_text(1, st, k, v, depth) == array_text(1, st, Some(k), a, depth));
                assert(entry_text(1, st, k, v, depth) =~= joined(first) + seq!['\n'] + joined(
                    items_lines(st, a, depth + 1),
                ));
            } else {
                if a.len() > 0 {
                    lemma_items_primitive(st, a);
                }
                assert(entry_text(1, st, k, v, depth) =~= line_text(
                    entry_lines(st, k, v, depth)[0],
                ));
            }
        },
        _ => {
            assert(entry_text(1, st, k, v, depth) =~= line_text(entry_lines(st, k, v, depth)[0]));
        },
    }
}

/// An object is written as its lines joined.
proof fn lemma_object_text(st: Style, m: Seq<(Seq<char>, SpecValue)>, depth: nat)
    requires
        m.len() > 0,
        entries_read_back(st, m),
    ensures
        obj_lines(st, m, depth).len() > 0,
        object_text(1, st, m, depth) == joined(obj_lines(st, m, depth)),
    decreases m, 0int,
{
    lemma_obj_lines_last(st, m, depth);
    lemma_entries_last(st, m);
    lemma_entry_text(st, m.last().0, m.last().1, depth);
    if m.len() == 1 {
        assert(m.drop_last().len() == 0);
        assert(obj_lines(st, m.drop_last(), depth) =~= Seq::<LineModel>::empty());
        assert(obj_lines(st, m, depth) =~= entry_lines(st, m.last().0, m.last().1, depth));
    } else {
        lemma_object_text(st, m.drop_last(), depth);
        lemma_joined_concat(
            obj_lines(st, m.drop_last(), depth),
            entry_lines(st, m.last().0, m.last().1, depth),
        );
    }
}

/// The lines of a list end with the lines of its last item.
proof fn lemma_items_lines_last(st: Style, a: Seq<SpecValue>, depth: nat)
    requires
        a.len() > 0,
    ensures
        items_lines(st, a, depth) == items_lines(st, a.drop_last(), depth) + expanded_item_lines(
            st,
            a.last(),
            depth,
        ),
    decreases a.len(),
{
    if a.len() == 1 {
        assert(items_lines(st, a.drop_first(), depth) =~= Seq::<LineModel>::empty());
        assert(items_lines(st, a.drop_last(), depth) =~= Seq::<LineModel>::empty());
        assert(a.last() == a[0]);
        assert(items_lines(st, a, depth) =~= items_lines(st, a.drop_last(), depth)
            + expanded_item_lines(st, a.last(), depth));
    } else {
        let r = a.drop_first();
        lemma_items_lines_last(st, r, depth);
        assert(r.drop_last() =~= a.drop_last().drop_first());
        assert(r.last() == a.last());
        assert(a.drop_last()[0] == a[0]);
        assert(items_lines(st, a, depth) =~= items_lines(st, a.drop_last(), depth)
            + expanded_item_lines(st, a.last(), depth));
    }
}

/// The conditions hold of the items before the last and of the last one.
proof fn lemma_items_read_back_last(st: Style, a: Seq<SpecValue>)
    requires
        a.len() > 0,
        items_read_back(st, a),
    ensures
        items_read_back(st, a.drop_last()),
        list_item_reads_back(st, a.last()),
    decreases a.len(),
{
    if a.len() > 1 {
        let r = a.drop_first();
        lemma_items_read_back_last(st, r);
        assert(r.drop_last() =~= a.drop_last().drop_first());
        assert(a.drop_last()[0] == a[0]);
    } else {
        assert(a.last() == a[0]);
        assert(a.drop_last().len() == 0);
    }
}

/// The items of a list are written as their lines joined, after a line feed.
proof fn lemma_items_expanded_text(st: Style, a: Seq<SpecValue>, depth: nat)
    requires
        items_read_back(st, a),
    ensures
        a.len() > 0 ==> items_lines(st, a, depth + 1).len() > 0,
        items_expanded_text(1, st, a, depth) == (if a.len() == 0 {
            Seq::<char>::empty()
        } else {
            seq!['\n'] + joined(items_lines(st, a, depth + 1))
        }),
    decreases a, 1int,
{
    if a.len() > 0 {
        lemma_items_read_back_last(st, a);
        lemma_items_lines_last(st, a, depth + 1);
        lemma_item_text(st, a.last(), depth);
        lemma_items_expanded_text(st, a.drop_last(), depth);
        if a.len() == 1 {
            assert(a.drop_last().len() == 0);
            assert(items_lines(st, a.drop_last(), depth + 1) =~= Seq::<LineModel>::empty());
            assert(items_lines(st, a, depth + 1) =~= expanded_item_lines(st, a.last(), depth + 1));
        } else {
            lemma_joined_concat(
                items_lines(st, a.drop_last(), depth + 1),
                expanded_item_lines(st, a.last(), depth + 1),
            );
        }
    }
}

/// An item of a list is written as its lines joined.
proof fn lemma_item_text(st: Style, v: SpecValue, depth: nat)
    requires
        list_item_reads_back(st, v),
    ensures
        expanded_item_lines(st, v, depth + 1).len() > 0,
        item_text(1, st, v, depth) == joined(expanded_item_lines(st, v, depth + 1)),
    decreases v, 0int,
{
    assert(1 * (depth + 1) == depth + 1);
    match v {
        SpecValue::Object(o) => {
            if o.len() == 0 {
                assert(item_text(1, st, v, depth) =~= line_text(
                    expanded_item_lines(st, v, depth + 1)[0],
                ));
            } else {
                lemma_list_object_text(st, o, depth + 1);
            }
        },
        SpecValue::Array(b) => {
            if b.len() > 0 {
                lemma_items_primitive(st, b);
            }
            assert(item_text(1, st, v, depth) =~= line_text(
                expanded_item_lines(st, v, depth + 1)[0],
            ));
        },
        _ => {
            assert(item_text(1, st, v, depth) =~= line_text(
                expanded_item_lines(st, v, depth + 1)[0],
            ));
        },
    }
}

/// An object written as a list item is written as its lines joined.
#[verifier::rlimit(100)]
#[verifier::spinoff_prover]
proof fn lemma_list_object_text(st: Style, o: Seq<(Seq<char>, SpecValue)>, depth: nat)
    requires
        list_object_reads_back(st, o),
    ensures
        list_item_text(1, st, o, depth) == joined(list_object_lines(st, o, depth)),
    decreases o, 1int,
{
    assert(1 * depth == depth);
    let v0 = o[0].1;
    assert(first_field_reads_back(st, o[0].0, v0));
    assert(first_field_text(1, st, v0, depth) == first_tail(st, v0)) by {
        if v0 is Array && v0->Array_0.len() > 0 {
            lemma_items_primitive(st, v0->Array_0);
        }
    }
    let first = seq![dash_line(depth, key_text(o[0].0) + first_tail(st, v0))];
    let rest = obj_lines(st, o.drop_first(), depth + 1);
    lemma_continuation_text(st, o.drop_first(), depth);
    if o.len() == 1 {
        assert(o.drop_first().len() == 0);
        assert(rest =~= Seq::<LineModel>::empty());
        assert(list_object_lines(st, o, depth) =~= first);
        assert(list_item_text(1, st, o, depth) =~= line_text(first[0]));
    } else {
        lemma_object_text(st, o.drop_first(), depth + 1);
        lemma_joined_concat(first, rest);
        assert(list_item_text(1, st, o, depth) =~= line_text(first[0]) + seq!['\n'] + joined(rest));
    }
}

/// The entries of a list item after the first are written as their lines
/// joined, one level deeper, after a line feed.
proof fn lemma_continuation_text(st: Style, m: Seq<(Seq<char>, SpecValue)>, depth: nat)
    requires
        entries_read_back(st, m),
    ensures
        continuation_text(1, st, m, depth) == (if m.len() == 0 {
            Seq::<char>::empty()
        } else {
            seq!['\n'] + joined(obj_lines(st, m, depth + 1))
        }),
    decreases m, 1int,
{
    if m.len() > 0 {
        lemma_entries_last(st, m);
        lemma_obj_lines_last(st, m, depth + 1);
        lemma_entry_text(st, m.last().0, m.last().1, depth + 1);
        assert(continuation_entry_text(1, st, m.last().0, m.last().1, depth) == entry_text(
            1,
            st,
            m.last().0,
            m.last().1,
            depth + 1,
        ));
        lemma_continuation_text(st, m.drop_last(), depth);
        if m.len() == 1 {
            assert(m.drop_last().len() == 0);
            assert(obj_lines(st, m.drop_last(), depth + 1) =~= Seq::<LineModel>::empty());
            assert(obj_lines(st, m, depth + 1) =~= entry_lines(st, m.last().0, m.last().1, depth + 1));
        } else {
            lemma_object_text(st, m.drop_last(), depth + 1);
            lemma_joined_concat(
                obj_lines(st, m.drop_last(), depth + 1),
                entry_lines(st, m.last().0, m.last().1, depth + 1),
            );
        }
    }
}

// ---------------------------------------------------------------------------
// Keys
// ---------------------------------------------------------------------------
/// An ASCII character of a string is a byte of its UTF-8 form.
pub(crate) proof fn lemma_ascii_byte(k: Seq<char>, i: int) -> (j: int)
    requires
        0 <= i < k.len(),
        is_ascii_char(k[i]),
    ensures
        0 <= j < encode_utf8(k).len(),
        encode_utf8(k)[j] == (k[i] as u32) as u8,
{
    let a = k.take(i);
    let c = seq![k[i]];
    let b = k.skip(i + 1);
    assert(k =~= a + c + b);
    lemma_encode_utf8_concat(a + c, b);
    lemma_encode_utf8_concat(a, c);
    lemma_encode_ascii_char(k[i]);
    let j = encode_utf8(a).len() as int;
    assert(encode_utf8(k) == encode_utf8(a) + encode_utf8(c) + encode_utf8(b));
    assert(encode_utf8(k)[j] == encode_utf8(c)[0]);
    j
}

/// The characters that a bare key cannot hold.
pub open spec fn key_unsafe_char(c: char) -> bool {
    c == ':' || c == '[' || c == ']' || c == '{' || c == '}' || c == '"' || c == '\\' || c == ' '
        || c == '\t' || c == '\n' || c == '\r' || c == ';' || c == '@' || c == '#' || c == ','
}

/// A key written bare is not empty and holds none of the characters that ask
/// for quotes.
pub(crate) proof fn lemma_unquoted_key_chars(k: Seq<char>)
    requires
        valid_unquoted_key(k),
    ensures
        k.len() > 0,
        forall|i: int| 0 <= i < k.len() ==> !key_unsafe_char(#[trigger] k[i]),
{
    if k.len() == 0 {
        assert(encode_utf8(k) =~= Seq::<u8>::empty());
    }
    assert forall|i: int| 0 <= i < k.len() implies !key_unsafe_char(#[trigger] k[i]) by {
        if key_unsafe_char(k[i]) {
            assert(is_ascii_char(k[i]));
            let j = lemma_ascii_byte(k, i);
            assert(key_unsafe_byte(encode_utf8(k)[j]));
        }
    }
}

/// Escaping brings in no character other than a backslash and the letters
/// and signs of the escapes.
proof fn lemma_escape_keeps_out(k: Seq<char>, c: char)
    requires
        c != '\\' && c != '"' && c != 'n' && c != 'r' && c != 't' && c != ';',
        forall|i: int| 0 <= i < k.len() ==> k[i] != c,
    ensures
        forall|i: int| 0 <= i < escape(k).len() ==> escape(k)[i] != c,
    decreases k.len(),
{
    if k.len() > 0 {
        let p = k.drop_last();
        assert forall|i: int| 0 <= i < p.len() implies p[i] != c by {
            assert(p[i] == k[i]);
        }
        lemma_escape_keeps_out(p, c);
        let e = escape_char(k.last());
        assert(escape(k) == escape(p) + e);
        assert forall|i: int| 0 <= i < escape(k).len() implies escape(k)[i] != c by {
            if i >= escape(p).len() {
                assert(escape(k)[i] == e[i - escape(p).len()]);
            }
        }
    }
}

/// What a key's text is, for a key that reads back: the key itself, bare,
/// with none of the characters that ask for quotes; or the key in quotes.
/// Either way it is not empty, starts with no whitespace, and holds no `[`
/// and no line feed.
pub(crate) proof fn lemma_key_text(k: Seq<char>)
    requires
        key_reads_back(k),
    ensures
        key_text(k).len() > 0,
        !is_ws(key_text(k)[0]),
        forall|i: int| 0 <= i < key_text(k).len() ==> key_text(k)[i] != '\n',
        !contains_char(k, '[') ==> forall|i: int|
            0 <= i < key_text(k).len() ==> key_text(k)[i] != '[',
        valid_unquoted_key(k) ==> key_text(k) == k && forall|i: int|
            0 <= i < k.len() ==> !key_unsafe_char(#[trigger] k[i]),
        !valid_unquoted_key(k) ==> key_text(k) == quoted(k),
{
    let kt = key_text(k);
    lemma_find_from(k, '[', 0);
    if valid_unquoted_key(k) {
        lemma_unquoted_key_chars(k);
        lemma_trimmed_ends(k);
        lemma_find_from(k, '\n', 0);
    } else {
        if !contains_char(k, '[') {
            lemma_escape_keeps_out(k, '[');
        }
        let e = escape(k);
        assert(kt == seq!['"'] + e + seq!['"']);
        assert forall|i: int| 0 <= i < kt.len() implies kt[i] != '\n' && (!contains_char(k, '[')
            ==> kt[i] != '[') by {
            if 0 < i < kt.len() - 1 {
                assert(kt[i] == e[i - 1]);
                lemma_escape_no_line_feed(k, i - 1);
            }
        }
    }
}

/// The text of a primitive that reads back holds no line feed: a line feed
/// in a string asks for quotes and is escaped.
pub(crate) proof fn lemma_primitive_no_line_feed(st: Style, v: SpecValue)
    requires
        reads_back(st, v),
    ensures
        !contains_char(primitive_text(st, v), '\n'),
{
    let pt = primitive_text(st, v);
    if v is Str && !safe_unquoted(st, v->Str_0) {
        let s = v->Str_0;
        assert(pt == quoted(s));
        assert forall|j: int| 0 <= j < pt.len() implies pt[j] != '\n' by {
            if 0 < j < pt.len() - 1 {
                assert(pt[j] == escape(s)[j - 1]);
                lemma_escape_no_line_feed(s, j - 1);
            }
        }
    } else {
        crate::one_line_round_trip::lemma_plain_primitive_chars(st, v);
    }
    lemma_find_none(pt, '\n');
}

/// Escaped text holds no line feed.
pub(crate) proof fn lemma_escape_no_line_feed(k: Seq<char>, i: int)
    requires
        0 <= i < escape(k).len(),
    ensures
        escape(k)[i] != '\n',
    decreases k.len(),
{
    if k.len() > 0 {
        let p = k.drop_last();
        let e = escape_char(k.last());
        assert(escape(k) == escape(p) + e);
        if i < escape(p).len() {
            assert(escape(k)[i] == escape(p)[i]);
            lemma_escape_no_line_feed(p, i);
        } else {
            assert(escape(k)[i] == e[i - escape(p).len()]);
        }
    }
}

/// The first index that holds `c` is `n` where no index before it does.
pub(crate) proof fn lemma_find_first(s: Seq<char>, c: char, n: int)
    requires
        0 <= n < s.len(),
        s[n] == c,
        forall|j: int| 0 <= j < n ==> s[j] != c,
    ensures
        find(s, c) == n,
{
    lemma_find_from(s, c, 0);
}

/// A string with no `c` does not contain it.
pub(crate) proof fn lemma_find_none(s: Seq<char>, c: char)
    requires
        forall|j: int| 0 <= j < s.len() ==> s[j] != c,
    ensures
        !contains_char(s, c),
{
    lemma_find_from(s, c, 0);
}

/// Scanning for the key colon over characters that are no quote, brace or
/// colon reaches the colon at `n`.
proof fn lemma_colon_scan_plain(s: Seq<char>, i: int, n: int)
    requires
        0 <= i <= n < s.len(),
        s[n] == ':',
        forall|j: int| i <= j < n ==> s[j] != '"' && s[j] != '{' && s[j] != '}' && s[j] != ':',
    ensures
        colon_scan(s, i, false, 0) == Some(n),
    decreases n - i,
{
    if i < n {
        lemma_colon_scan_plain(s, i + 1, n);
    }
}

/// Scanning for the key colon inside quotes passes over an escaped string as a
/// whole.
proof fn lemma_colon_scan_escape(t: Seq<char>, i: int, s: Seq<char>, depth: int)
    requires
        0 <= i,
        i + escape(s).len() < t.len(),
        t.subrange(i, i + escape(s).len()) == escape(s),
    ensures
        colon_scan(t, i, true, depth) == colon_scan(t, i + escape(s).len(), true, depth),
    decreases s.len(),
{
    if s.len() > 0 {
        crate::round_trip::lemma_escape_first(s);
        let e = escape_char(s[0]);
        let rest = s.drop_first();
        assert(escape(s).len() == e.len() + escape(rest).len());
        assert(t.subrange(i + e.len(), i + e.len() + escape(rest).len()) =~= escape(rest)) by {
            assert forall|k: int| 0 <= k < escape(rest).len() implies t[i + e.len() + k] == escape(
                rest,
            )[k] by {
                assert(t.subrange(i, i + escape(s).len())[e.len() + k] == escape(s)[e.len() + k]);
            }
        }
        assert(t[i] == escape(s)[0]) by {
            assert(t.subrange(i, i + escape(s).len())[0] == escape(s)[0]);
        }
        if crate::round_trip::escaped(s[0]) {
            assert(e.len() == 2);
            assert(t[i] == '\\');
        } else {
            assert(e.len() == 1);
            assert(t[i] == s[0]);
        }
        lemma_colon_scan_escape(t, i + e.len(), rest, depth);
    }
}

/// The line of an entry, `key: ...`: its key colon ends the key's text, it is
/// no array header, the key reads back from it, and it is no comment or
/// directive, no `{}` and no list item.
#[verifier::rlimit(100)]
#[verifier::spinoff_prover]
proof fn lemma_entry_content(k: Seq<char>, tail: Seq<char>)
    requires
        key_reads_back(k),
    ensures
        ({
            let kt = key_text(k);
            let content = kt + seq![':'] + tail;
            &&& key_colon(content) == Some(kt.len() as int)
            &&& (key_line_ok(k, tail) ==> try_header_of(content) is None)
            &&& key_of(content) == Ok::<(Seq<char>, int), DecodeError>((k, kt.len() + 1int))
            &&& content[0] != '"' ==> trim(content.subrange(0, kt.len() as int)) == k
            &&& !directive_key(k) ==> !skipped(content)
            &&& content[0] != '{'
            &&& !starts_with(content, seq!['-', ' '])
            &&& !is_ws(content[0])
            &&& contains_char(content, ':')
        }),
{
    let kt = key_text(k);
    let content = kt + seq![':'] + tail;
    let n = kt.len() as int;
    lemma_key_text(k);
    assert(content[n] == ':');
    assert forall|j: int| 0 <= j < n implies content[j] == kt[j] by {}
    lemma_find_from(content, ':', 0);
    lemma_find_from(content, '[', 0);
    assert(find(content, ':') <= n);
    assert(!contains_char(k, '[') ==> find(content, '[') == -1 || find(content, '[') > n) by {
        if !contains_char(k, '[') && find(content, '[') != -1 && find(content, '[') <= n {
            assert(content[find(content, '[')] == '[');
        }
    }
    assert(contains_char(content, ':'));
    if valid_unquoted_key(k) {
        assert(kt == k);
        assert forall|j: int| 0 <= j < n implies content[j] != '"' && content[j] != '{'
            && content[j] != '}' && content[j] != ':' by {
            assert(!key_unsafe_char(k[j]));
        }
        lemma_colon_scan_plain(content, 0, n);
        lemma_find_first(content, ':', n);
        assert(content.take(n) =~= k);
        lemma_find_none(k, '"');
        lemma_find_none(k, '{');
        assert(content.subrange(0, n) =~= k);
        assert(!key_unsafe_char(k[0]));
        if n > 1 {
            assert(!key_unsafe_char(k[1]));
        }
        if n > 3 {
            assert(!key_unsafe_char(k[3]));
        }
        assert(content[0] != '"');
        assert(trim(k) == k);
        if !directive_key(k) {
        assert(!starts_with(content, seq!['s', ':'])) by {
            if starts_with(content, seq!['s', ':']) {
                assert(content.subrange(0, 2)[1] == ':');
                if n == 1 {
                    assert(k =~= seq!['s']) by {
                        assert(content.subrange(0, 2)[0] == 's');
                    }
                }
            }
        }
        assert(!starts_with(content, seq!['r', ':'])) by {
            if starts_with(content, seq!['r', ':']) {
                assert(content.subrange(0, 2)[1] == ':');
                if n == 1 {
                    assert(k =~= seq!['r']) by {
                        assert(content.subrange(0, 2)[0] == 'r');
                    }
                }
            }
        }
        assert(!starts_with(content, seq!['s', 'e', 'c', ':'])) by {
            if starts_with(content, seq!['s', 'e', 'c', ':']) {
                let p = content.subrange(0, 4);
                assert(p[1] == 'e' && p[2] == 'c' && p[3] == ':');
                if n == 3 {
                    assert(k =~= seq!['s', 'e', 'c']) by {
                        assert(p[0] == 's');
                    }
                }
            }
        }
        }
        assert(!starts_with(content, seq!['@', '@'])) by {
            if starts_with(content, seq!['@', '@']) {
                assert(content.subrange(0, 2)[0] == '@');
            }
        }
        assert(!starts_with(content, seq!['@', 'u', 's', 'e', ' '])) by {
            if starts_with(content, seq!['@', 'u', 's', 'e', ' ']) {
                assert(content.subrange(0, 5)[0] == '@');
            }
        }
        assert(!starts_with(content, seq!['-', ' '])) by {
            if starts_with(content, seq!['-', ' ']) {
                assert(content.subrange(0, 2)[1] == ' ');
            }
        }
    } else {
        let e = escape(k);
        let el = e.len() as int;
        assert(kt == seq!['"'] + e + seq!['"']);
        assert(content[0] == '"');
        assert(content.subrange(1, 1 + el) =~= e);
        lemma_colon_scan_escape(content, 1, k, 0);
        assert(content[1 + el] == '"');
        assert(n == 2 + el);
        assert(colon_scan(content, n, false, 0) == Some(n));
        assert(colon_scan(content, 1 + el, true, 0) == colon_scan(content, n, false, 0));
        assert(colon_scan(content, 0, false, 0) == colon_scan(content, 1, true, 0));
        assert(colon_scan(content, 0, false, 0) == Some(n));
        if find(content, ':') >= 0 {
            assert(find(content, ':') >= 1);
            let c = find(content, ':');
            assert(content.take(c)[0] == '"');
            lemma_find_from(content.take(c), '"', 0);
        }
        lemma_scan_escape(content, 1, k);
        assert(quote_scan(content, 1) == Some(1 + el));
        assert(closing_quote(content, 0) == Some(n - 1));
        assert(content.subrange(1, n - 1) =~= e);
        lemma_unescape_escape(k);
        assert(!starts_with(content, seq!['@', '@'])) by {
            if starts_with(content, seq!['@', '@']) {
                assert(content.subrange(0, 2)[0] == '@');
            }
        }
        assert(!starts_with(content, seq!['@', 'u', 's', 'e', ' '])) by {
            if starts_with(content, seq!['@', 'u', 's', 'e', ' ']) {
                assert(content.subrange(0, 5)[0] == '@');
            }
        }
        assert(!starts_with(content, seq!['s', ':'])) by {
            if starts_with(content, seq!['s', ':']) {
                assert(content.subrange(0, 2)[0] == 's');
            }
        }
        assert(!starts_with(content, seq!['r', ':'])) by {
            if starts_with(content, seq!['r', ':']) {
                assert(content.subrange(0, 2)[0] == 'r');
            }
        }
        assert(!starts_with(content, seq!['s', 'e', 'c', ':'])) by {
            if starts_with(content, seq!['s', 'e', 'c', ':']) {
                assert(content.subrange(0, 4)[0] == 's');
            }
        }
        assert(!starts_with(content, seq!['-', ' '])) by {
            if starts_with(content, seq!['-', ' ']) {
                assert(content.subrange(0, 2)[0] == '-');
            }
        }
    }
}

// ---------------------------------------------------------------------------
// The shape of the lines of an object
// ---------------------------------------------------------------------------
/// Lines that start at `depth`, never go above it, go down at most one level
/// at a time, are clean, and whose first line is no list item.
pub open spec fn lines_shape(ls: Seq<LineModel>, depth: nat) -> bool {
    &&& ls.len() > 0
    &&& ls[0].depth == depth
    &&& clean_lines(ls)
    &&& forall|i: int| 0 <= i < ls.len() ==> #[trigger] ls[i].depth >= depth
    &&& forall|j: int| 0 < j < ls.len() ==> #[trigger] ls[j].depth <= ls[j - 1].depth + 1
    &&& !starts_with(ls[0].content, seq!['-', ' '])
}

proof fn lemma_shape_concat(a: Seq<LineModel>, b: Seq<LineModel>, depth: nat)
    requires
        lines_shape(a, depth),
        lines_shape(b, depth),
    ensures
        lines_shape(a + b, depth),
{
    let c = a + b;
    assert(c[0] == a[0]);
    assert forall|i: int| 0 <= i < c.len() implies clean_line(#[trigger] c[i]) && c[i].depth
        >= depth by {
        if i < a.len() {
            assert(c[i] == a[i]);
        } else {
            assert(c[i] == b[i - a.len()]);
        }
    }
    assert forall|j: int| 0 < j < c.len() implies #[trigger] c[j].depth <= c[j - 1].depth + 1 by {
        if j < a.len() {
            assert(c[j] == a[j] && c[j - 1] == a[j - 1]);
        } else if j == a.len() {
            assert(c[j] == b[0] && c[j - 1] == a[j - 1]);
        } else {
            assert(c[j] == b[j - a.len()] && c[j - 1] == b[j - 1 - a.len()]);
        }
    }
}

/// The line of an entry has no whitespace at its ends and no line feed, and
/// is clean where its key starts no directive.
proof fn lemma_entry_line_clean(k: Seq<char>, tail: Seq<char>)
    requires
        key_reads_back(k),
        tail.len() > 0 ==> !is_ws(tail.last()),
        forall|i: int| 0 <= i < tail.len() ==> tail[i] != '\n',
    ensures
        (key_text(k) + seq![':'] + tail).len() > 0,
        trim(key_text(k) + seq![':'] + tail) == key_text(k) + seq![':'] + tail,
        !contains_char(key_text(k) + seq![':'] + tail, '\n'),
        !directive_key(k) ==> clean_line(LineModel { depth: 0, content: key_text(k) + seq![':'] + tail }),
{
    let kt = key_text(k);
    let content = kt + seq![':'] + tail;
    lemma_entry_content(k, tail);
    lemma_key_text(k);
    assert(content.last() == if tail.len() > 0 {
        tail.last()
    } else {
        ':'
    });
    lemma_trim_id(content);
    assert forall|j: int| 0 <= j < content.len() implies content[j] != '\n' by {
        if j < kt.len() {
            assert(content[j] == kt[j]);
        } else if j > kt.len() {
            assert(content[j] == tail[j - kt.len() - 1]);
        }
    }
    lemma_find_none(content, '\n');
}

/// The lines of an entry that reads back have the shape of lines at its depth.
#[verifier::rlimit(100)]
#[verifier::spinoff_prover]
proof fn lemma_entry_shape(st: Style, k: Seq<char>, v: SpecValue, depth: nat)
    requires
        entry_reads_back(st, k, v),
    ensures
        lines_shape(entry_lines(st, k, v, depth), depth),
    decreases v, 0int,
{
    let kt = key_text(k);
    let ls = entry_lines(st, k, v, depth);
    match v {
        SpecValue::Object(inner) => {
            if inner.len() == 0 {
                let tail = seq![' ', '{', '}'];
                lemma_entry_line_clean(k, tail);
                lemma_entry_content(k, tail);
                assert(ls[0].content == kt + seq![':'] + tail);
            } else {
                let tail = Seq::<char>::empty();
                lemma_entry_line_clean(k, tail);
                lemma_entry_content(k, tail);
                assert(kt + seq![':'] + tail =~= kt + seq![':']);
                let first = seq![LineModel { depth, content: kt + seq![':'] }];
                lemma_obj_shape(st, inner, depth + 1);
                let rest = obj_lines(st, inner, depth + 1);
                assert(ls == first + rest);
                assert(ls[0] == first[0]);
                assert forall|i: int| 0 <= i < ls.len() implies clean_line(#[trigger] ls[i])
                    && ls[i].depth >= depth by {
                    if i > 0 {
                        assert(ls[i] == rest[i - 1]);
                    }
                }
                assert forall|j: int| 0 < j < ls.len() implies #[trigger] ls[j].depth <= ls[j
                    - 1].depth + 1 by {
                    assert(ls[j] == rest[j - 1]);
                    if j > 1 {
                        assert(ls[j - 1] == rest[j - 2]);
                    }
                }
            }
        },
        SpecValue::Array(a) => {
            if a.len() == 0 {
                let tail = seq![' ', '[', ']'];
                lemma_entry_line_clean(k, tail);
                lemma_entry_content(k, tail);
                assert(ls[0].content == kt + seq![':'] + tail);
            } else if tabular_reads_back(st, a) {
                lemma_tabular_fields(st, a);
                lemma_table_shape(kt, Some(k), st, a, depth);
            } else if expanded_reads_back(st, a) {
                lemma_list_entry_shape(st, k, a, depth);
            } else {
                lemma_items_primitive(st, a);
                lemma_array_line(kt, Some(k), st, a);
                assert(ls[0].content =~= array_line(kt, st, a));
            }
        },
        _ => {
            let pt = primitive_text(st, v);
            let tail = seq![' '] + pt;
            lemma_primitive_round_trip(st, v);
            lemma_primitive_no_line_feed(st, v);
            lemma_trimmed_ends(pt);
            assert(tail.last() == pt.last());
            lemma_find_from(pt, '\n', 0);
            assert forall|i: int| 0 <= i < tail.len() implies tail[i] != '\n' by {
                if i > 0 {
                    assert(tail[i] == pt[i - 1]);
                }
            }
            lemma_entry_line_clean(k, tail);
            lemma_entry_content(k, tail);
            assert(ls[0].content =~= kt + seq![':'] + tail);
        },
    }
}

/// The lines of a list under a key have the shape of lines at its depth.
proof fn lemma_list_entry_shape(st: Style, k: Seq<char>, a: Seq<SpecValue>, depth: nat)
    requires
        key_reads_back(k),
        array_key_ok(k),
        expanded_reads_back(st, a),
    ensures
        lines_shape(entry_lines(st, k, SpecValue::Array(a), depth), depth),
        entry_lines(st, k, SpecValue::Array(a), depth) == seq![
            LineModel { depth, content: key_text(k) + count_text(a.len()) + seq![':'] },
        ] + items_lines(st, a, depth + 1),
    decreases a, 3int,
{
    let n = a.len();
    let ls = entry_lines(st, k, SpecValue::Array(a), depth);
    lemma_list_header(key_text(k), Some(k), n);
    let hl = seq![LineModel { depth, content: key_text(k) + count_text(n) + seq![':'] }];
    let items = items_lines(st, a, depth + 1);
    lemma_items_shape(st, a, depth + 1);
    assert(ls == hl + items);
    assert(ls[0] == hl[0]);
    assert forall|i: int| 0 <= i < ls.len() implies clean_line(#[trigger] ls[i]) && ls[i].depth
        >= depth by {
        if i > 0 {
            assert(ls[i] == items[i - 1]);
        }
    }
    assert forall|j: int| 0 < j < ls.len() implies #[trigger] ls[j].depth <= ls[j - 1].depth + 1 by {
        assert(ls[j] == items[j - 1]);
        if j > 1 {
            assert(ls[j - 1] == items[j - 2]);
        }
    }
}

/// The lines of an object whose entries read back have the shape of lines at
/// its depth.
proof fn lemma_obj_shape(st: Style, m: Seq<(Seq<char>, SpecValue)>, depth: nat)
    requires
        m.len() > 0,
        entries_read_back(st, m),
    ensures
        lines_shape(obj_lines(st, m, depth), depth),
    decreases m, 1int,
{
    lemma_entry_shape(st, m[0].0, m[0].1, depth);
    if m.len() == 1 {
        assert(m.drop_first().len() == 0);
        assert(obj_lines(st, m.drop_first(), depth) =~= Seq::<LineModel>::empty());
        assert(obj_lines(st, m, depth) =~= entry_lines(st, m[0].0, m[0].1, depth));
    } else {
        lemma_obj_shape(st, m.drop_first(), depth);
        lemma_shape_concat(
            entry_lines(st, m[0].0, m[0].1, depth),
            obj_lines(st, m.drop_first(), depth),
            depth,
        );
    }
}

/// Lines that start at `depth`, never go above it, go down at most one level
/// at a time, and are clean.
pub open spec fn run_shape(ls: Seq<LineModel>, depth: nat) -> bool {
    &&& ls.len() > 0
    &&& ls[0].depth == depth
    &&& clean_lines(ls)
    &&& forall|i: int| 0 <= i < ls.len() ==> #[trigger] ls[i].depth >= depth
    &&& forall|j: int| 0 < j < ls.len() ==> #[trigger] ls[j].depth <= ls[j - 1].depth + 1
}

/// The lines of one item of a list: a run at `depth` that starts with a `- `
/// line, its other lines deeper.
pub open spec fn item_shape(ls: Seq<LineModel>, depth: nat) -> bool {
    &&& run_shape(ls, depth)
    &&& starts_with(ls[0].content, dash())
    &&& forall|i: int| 0 < i < ls.len() ==> #[trigger] ls[i].depth > depth
}

proof fn lemma_run_concat(a: Seq<LineModel>, b: Seq<LineModel>, depth: nat)
    requires
        run_shape(a, depth),
        run_shape(b, depth),
    ensures
        run_shape(a + b, depth),
{
    let c = a + b;
    assert(c[0] == a[0]);
    assert forall|i: int| 0 <= i < c.len() implies clean_line(#[trigger] c[i]) && c[i].depth
        >= depth by {
        if i < a.len() {
            assert(c[i] == a[i]);
        } else {
            assert(c[i] == b[i - a.len()]);
        }
    }
    assert forall|j: int| 0 < j < c.len() implies #[trigger] c[j].depth <= c[j - 1].depth + 1 by {
        if j < a.len() {
            assert(c[j] == a[j] && c[j - 1] == a[j - 1]);
        } else if j == a.len() {
            assert(c[j] == b[0] && c[j - 1] == a[j - 1]);
        } else {
            assert(c[j] == b[j - a.len()] && c[j - 1] == b[j - 1 - a.len()]);
        }
    }
}

/// A `- ` line is clean where what follows the dash is not empty, has no
/// whitespace at its ends and no line feed.
proof fn lemma_dash_line(depth: nat, rest: Seq<char>)
    requires
        rest.len() > 0,
        trim(rest) == rest,
        !contains_char(rest, '\n'),
    ensures
        clean_line(dash_line(depth, rest)),
        starts_with(dash_line(depth, rest).content, dash()),
        item_content(dash_line(depth, rest).content) == rest,
{
    let c = dash_line(depth, rest).content;
    lemma_trimmed_ends(rest);
    assert(c[0] == '-');
    assert(c.last() == rest.last());
    lemma_trim_id(c);
    lemma_find_from(rest, '\n', 0);
    assert forall|j: int| 0 <= j < c.len() implies c[j] != '\n' by {
        if j >= 2 {
            assert(c[j] == rest[j - 2]);
        }
    }
    lemma_find_none(c, '\n');
    assert(c.subrange(0, 2) =~= dash());
    assert(c.subrange(2, c.len() as int) =~= rest);
    assert(!skipped(c)) by {
        if starts_with(c, seq!['@', '@']) {
            assert(c.subrange(0, 2)[0] == c[0]);
        }
        if starts_with(c, seq!['@', 'u', 's', 'e', ' ']) {
            assert(c.subrange(0, 5)[0] == c[0]);
        }
        if starts_with(c, seq!['s', ':']) {
            assert(c.subrange(0, 2)[0] == c[0]);
        }
        if starts_with(c, seq!['r', ':']) {
            assert(c.subrange(0, 2)[0] == c[0]);
        }
        if starts_with(c, seq!['s', 'e', 'c', ':']) {
            assert(c.subrange(0, 4)[0] == c[0]);
        }
    }
}

/// What follows the value's colon on the line of an entry whose value is a
/// primitive or an empty object or array.
pub open spec fn short_tail(st: Style, v: SpecValue) -> Seq<char> {
    match v {
        SpecValue::Object(_) => seq![' ', '{', '}'],
        SpecValue::Array(_) => seq![' ', '[', ']'],
        _ => seq![' '] + primitive_text(st, v),
    }
}

/// The value written after the colon of a short entry is read back, and the
/// tail ends with no whitespace and has no line feed.
proof fn lemma_short_tail(st: Style, v: SpecValue)
    requires
        v is Object ==> v->Object_0.len() == 0,
        v is Array ==> v->Array_0.len() == 0,
        v.is_primitive() ==> reads_back(st, v),
    ensures
        short_tail(st, v).len() > 0,
        !is_ws(short_tail(st, v).last()),
        forall|i: int| 0 <= i < short_tail(st, v).len() ==> short_tail(st, v)[i] != '\n',
        trim(short_tail(st, v)).len() > 0,
        inline_value(trim(short_tail(st, v))) == v,
{
    let tail = short_tail(st, v);
    let r = match v {
        SpecValue::Object(_) => seq!['{', '}'],
        SpecValue::Array(_) => seq!['[', ']'],
        _ => primitive_text(st, v),
    };
    if v is Object || v is Array {
        assert(r[0] != ' ' && r.last() != ' ' && r.len() == 2);
        assert(!is_ws(r[0]) && !is_ws(r.last()));
        lemma_trim_id(r);
        assert(forall|i: int| 0 <= i < r.len() ==> r[i] != '\n');
    } else {
        lemma_primitive_round_trip(st, v);
        lemma_primitive_no_line_feed(st, v);
        lemma_find_from(r, '\n', 0);
    }
    lemma_trimmed_ends(r);
    lemma_trim_spaces(1, r);
    assert(spaces(1) + r =~= tail);
    assert(tail.last() == r.last());
    assert forall|i: int| 0 <= i < tail.len() implies tail[i] != '\n' by {
        if i > 0 {
            assert(tail[i] == r[i - 1]);
        }
    }
    match v {
        SpecValue::Object(inner) => {
            assert(inner =~= Seq::<(Seq<char>, SpecValue)>::empty());
        },
        SpecValue::Array(a) => {
            assert(a =~= Seq::<SpecValue>::empty());
        },
        _ => {},
    }
}

/// What follows the `- ` of the first line of an object written as a list
/// item: its first key and the first value's text.
pub open spec fn list_first_rest(st: Style, o: Seq<(Seq<char>, SpecValue)>) -> Seq<char> {
    key_text(o[0].0) + first_tail(st, o[0].1)
}

/// The first line of an object written as a list item is clean; it is an
/// array header with the first key, or it is none and holds a colon.
proof fn lemma_list_first_line(st: Style, o: Seq<(Seq<char>, SpecValue)>)
    requires
        list_object_reads_back(st, o),
    ensures
        list_first_rest(st, o).len() > 0,
        trim(list_first_rest(st, o)) == list_first_rest(st, o),
        !contains_char(list_first_rest(st, o), '\n'),
        try_header_of(list_first_rest(st, o)) is None ==> contains_char(list_first_rest(st, o), ':'),
        try_header_of(list_first_rest(st, o)) is Some ==> try_header_of(list_first_rest(st, o))->0.key
            is Some,
{
    let k = o[0].0;
    let v = o[0].1;
    let kt = key_text(k);
    let rest = list_first_rest(st, o);
    if v is Array && v->Array_0.len() > 0 {
        let b = v->Array_0;
        lemma_items_primitive(st, b);
        assert(rest =~= array_line(kt, st, b));
        lemma_array_line(kt, Some(k), st, b);
        lemma_array_header(kt, Some(k), st, b);
    } else {
        lemma_short_tail(st, v);
        let tail = short_tail(st, v);
        assert(first_tail(st, v) =~= seq![':'] + tail);
        assert(rest =~= kt + seq![':'] + tail);
        lemma_entry_line_clean(k, tail);
        lemma_entry_content(k, tail);
    }
}

/// The lines of an object written as a list item have the shape of an item.
proof fn lemma_list_object_shape(st: Style, o: Seq<(Seq<char>, SpecValue)>, depth: nat)
    requires
        list_object_reads_back(st, o),
    ensures
        item_shape(list_object_lines(st, o, depth), depth),
        list_object_lines(st, o, depth)[0] == dash_line(depth, list_first_rest(st, o)),
    decreases o, 2int,
{
    let ls = list_object_lines(st, o, depth);
    let rest = list_first_rest(st, o);
    lemma_list_first_line(st, o);
    lemma_dash_line(depth, rest);
    let first = seq![dash_line(depth, rest)];
    let more = obj_lines(st, o.drop_first(), depth + 1);
    assert(ls == first + more);
    assert(ls[0] == first[0]);
    if o.len() == 1 {
        assert(o.drop_first().len() == 0);
        assert(more =~= Seq::<LineModel>::empty());
        assert(ls =~= first);
    } else {
        lemma_obj_shape(st, o.drop_first(), depth + 1);
        assert forall|i: int| 0 <= i < ls.len() implies clean_line(#[trigger] ls[i]) && ls[i].depth
            >= depth && (i > 0 ==> ls[i].depth > depth) by {
            if i > 0 {
                assert(ls[i] == more[i - 1]);
            }
        }
        assert forall|j: int| 0 < j < ls.len() implies #[trigger] ls[j].depth <= ls[j - 1].depth
            + 1 by {
            assert(ls[j] == more[j - 1]);
            if j > 1 {
                assert(ls[j - 1] == more[j - 2]);
            }
        }
    }
}

/// What follows the `- ` of an item of a list that is no object with entries.
pub open spec fn item_rest(st: Style, v: SpecValue) -> Seq<char> {
    match v {
        SpecValue::Object(_) => seq!['{', '}'],
        SpecValue::Array(b) => if b.len() == 0 {
            seq!['[', ']']
        } else {
            count_text(b.len()) + seq![':', ' '] + items_text(st, b)
        },
        _ => primitive_text(st, v),
    }
}

/// The line of an item that is no object with entries is clean.
proof fn lemma_item_rest(st: Style, v: SpecValue)
    requires
        list_item_reads_back(st, v),
        !(v is Object && v->Object_0.len() > 0),
    ensures
        item_rest(st, v).len() > 0,
        trim(item_rest(st, v)) == item_rest(st, v),
        !contains_char(item_rest(st, v), '\n'),
{
    let r = item_rest(st, v);
    match v {
        SpecValue::Array(b) => {
            if b.len() == 0 {
                lemma_trim_id(r);
                assert(forall|i: int| 0 <= i < r.len() ==> r[i] != '\n');
                lemma_find_none(r, '\n');
            } else {
                lemma_items_primitive(st, b);
                assert(r =~= array_line(Seq::empty(), st, b));
                lemma_array_line(Seq::empty(), None, st, b);
            }
        },
        SpecValue::Object(_) => {
            lemma_trim_id(r);
            assert(forall|i: int| 0 <= i < r.len() ==> r[i] != '\n');
            lemma_find_none(r, '\n');
        },
        _ => {
            lemma_primitive_round_trip(st, v);
            lemma_primitive_no_line_feed(st, v);
        },
    }
}

/// The lines of an item of a list have the shape of an item.
proof fn lemma_item_shape(st: Style, v: SpecValue, depth: nat)
    requires
        list_item_reads_back(st, v),
    ensures
        item_shape(expanded_item_lines(st, v, depth), depth),
    decreases v, 1int,
{
    if v is Object && v->Object_0.len() > 0 {
        lemma_list_object_shape(st, v->Object_0, depth);
    } else {
        let ls = expanded_item_lines(st, v, depth);
        lemma_item_rest(st, v);
        lemma_dash_line(depth, item_rest(st, v));
        assert(ls =~= seq![dash_line(depth, item_rest(st, v))]);
    }
}

/// The lines of the items of a list have the shape of a run of lines.
proof fn lemma_items_shape(st: Style, a: Seq<SpecValue>, depth: nat)
    requires
        a.len() > 0,
        items_read_back(st, a),
    ensures
        run_shape(items_lines(st, a, depth), depth),
    decreases a, 2int,
{
    lemma_item_shape(st, a[0], depth);
    let e = expanded_item_lines(st, a[0], depth);
    if a.len() == 1 {
        assert(a.drop_first().len() == 0);
        assert(items_lines(st, a.drop_first(), depth) =~= Seq::<LineModel>::empty());
        assert(items_lines(st, a, depth) =~= e);
    } else {
        lemma_items_shape(st, a.drop_first(), depth);
        lemma_run_concat(e, items_lines(st, a.drop_first(), depth), depth);
    }
}

// ---------------------------------------------------------------------------
// Reading the lines of an object back
// ---------------------------------------------------------------------------
/// `lines` holds `block` from line `i` on.
pub open spec fn holds_at(lines: Seq<LineModel>, i: int, block: Seq<LineModel>) -> bool {
    &&& 0 <= i
    &&& i + block.len() <= lines.len()
    &&& lines.subrange(i, i + block.len() as int) == block
}

/// Line `j` is past the end, or above `depth`.
pub open spec fn ends_above(lines: Seq<LineModel>, j: int, depth: nat) -> bool {
    j == lines.len() || (0 <= j < lines.len() && lines[j].depth < depth)
}

/// Skipping the lines deeper than `base` from `j` stops at `end` where all of
/// them up to `end` are deeper and `end` is not.
pub(crate) proof fn lemma_skip_to(lines: Seq<LineModel>, base: nat, j: int, end: int)
    requires
        0 <= j <= end <= lines.len(),
        forall|x: int| j <= x < end ==> #[trigger] lines[x].depth > base,
        ends_above(lines, end, base + 1),
    ensures
        skip_deeper(lines, base, j) == end,
    decreases end - j,
{
    if j < end {
        lemma_skip_to(lines, base, j + 1, end);
    }
}

/// A key absent from the entries before it is not found among them.
proof fn lemma_new_key(acc: Seq<(Seq<char>, SpecValue)>, m: Seq<(Seq<char>, SpecValue)>)
    requires
        m.len() > 0,
        distinct_keys(acc + m),
    ensures
        key_index(acc, m[0].0) == -1,
        map_insert(acc, m[0].0, m[0].1) == acc.push(m[0]),
{
    lemma_key_index_from(acc, m[0].0, 0);
    let i = key_index(acc, m[0].0);
    if i != -1 {
        assert((acc + m)[i].0 == (acc + m)[acc.len() as int].0);
    }
}

/// An entry line with a value after its colon is read as its key and that
/// value.
proof fn lemma_key_value_inline(lines: Seq<LineModel>, i: int, base: nat, k: Seq<char>, tail: Seq<char>)
    requires
        key_reads_back(k),
        !directive_key(k),
        0 <= i < lines.len(),
        lines[i].content == key_text(k) + seq![':'] + tail,
        trim(tail).len() > 0,
    ensures
        key_value_lines(lines, i, base, key_text(k).len() as int) == Ok::<
            (Seq<char>, SpecValue, int),
            DecodeError,
        >((k, inline_value(trim(tail)), i + 1)),
{
    let kt = key_text(k);
    let n = kt.len() as int;
    let content = lines[i].content;
    lemma_entry_content(k, tail);
    assert(content.subrange(n + 1, content.len() as int) =~= tail);
}

/// An entry line that ends with its colon, followed by deeper lines that are
/// no list items, is read as its key and the object of those lines.
proof fn lemma_key_value_nested(lines: Seq<LineModel>, i: int, base: nat, k: Seq<char>)
    requires
        key_reads_back(k),
        !directive_key(k),
        0 <= i,
        i + 1 < lines.len(),
        lines[i].content == key_text(k) + seq![':'],
        lines[i + 1].depth == base + 1,
        !starts_with(lines[i + 1].content, dash()),
    ensures
        key_value_lines(lines, i, base, key_text(k).len() as int) == match object_lines(
            lines,
            base + 1,
            i + 1,
            Seq::empty(),
        ) {
            Err(e) => Err(e),
            Ok(obj) => Ok((k, SpecValue::Object(obj), skip_deeper(lines, base, i + 1))),
        },
{
    let kt = key_text(k);
    let n = kt.len() as int;
    let content = lines[i].content;
    let tail = Seq::<char>::empty();
    lemma_entry_content(k, tail);
    assert(kt + seq![':'] + tail =~= kt + seq![':']);
    assert(content.subrange(n + 1, content.len() as int) =~= tail);
    assert(trim(tail) =~= tail);
}

/// The one line of an entry whose value is a primitive, an empty object or an
/// empty array is read back as the entry.
proof fn lemma_decode_entry_line(
    lines: Seq<LineModel>,
    i: int,
    base: nat,
    st: Style,
    k: Seq<char>,
    v: SpecValue,
)
    requires
        entry_reads_back(st, k, v),
        !(v is Object && v->Object_0.len() > 0),
        !(v is Array && v->Array_0.len() > 0),
        0 <= i < lines.len(),
        lines[i] == entry_lines(st, k, v, base)[0],
    ensures
        entry_lines(st, k, v, base).len() == 1,
        try_header_of(lines[i].content) is None,
        key_colon(lines[i].content) == Some(key_text(k).len() as int),
        key_value_lines(lines, i, base, key_text(k).len() as int) == Ok::<
            (Seq<char>, SpecValue, int),
            DecodeError,
        >((k, v, i + 1)),
{
    let kt = key_text(k);
    let e = entry_lines(st, k, v, base);
    let tail = match v {
        SpecValue::Object(_) => seq![' ', '{', '}'],
        SpecValue::Array(_) => seq![' ', '[', ']'],
        _ => seq![' '] + primitive_text(st, v),
    };
    let r = match v {
        SpecValue::Object(_) => seq!['{', '}'],
        SpecValue::Array(_) => seq!['[', ']'],
        _ => primitive_text(st, v),
    };
    if v is Object || v is Array {
        assert(r[0] != ' ' && r.last() != ' ' && r.len() == 2);
        assert(!is_ws(r[0]) && !is_ws(r.last()));
        lemma_trim_id(r);
    } else {
        lemma_primitive_round_trip(st, v);
    }
    lemma_trim_spaces(1, r);
    assert(spaces(1) + r =~= tail);
    assert(e[0].content =~= kt + seq![':'] + tail);
    lemma_entry_content(k, tail);
    lemma_key_value_inline(lines, i, base, k, tail);
    match v {
        SpecValue::Object(inner) => {
            assert(inner =~= Seq::<(Seq<char>, SpecValue)>::empty());
        },
        SpecValue::Array(a) => {
            assert(a =~= Seq::<SpecValue>::empty());
        },
        _ => {},
    }
}

/// The lines of an entry are read back as the entry, and reading goes on at
/// the line after them.
#[verifier::rlimit(100)]
#[verifier::spinoff_prover]
proof fn lemma_decode_entry(
    lines: Seq<LineModel>,
    i: int,
    base: nat,
    st: Style,
    k: Seq<char>,
    v: SpecValue,
)
    requires
        entry_reads_back(st, k, v),
        !(v is Array && v->Array_0.len() > 0),
        holds_at(lines, i, entry_lines(st, k, v, base)),
        ends_above(lines, i + entry_lines(st, k, v, base).len(), base + 1),
    ensures
        try_header_of(lines[i].content) is None,
        key_colon(lines[i].content) == Some(key_text(k).len() as int),
        key_value_lines(lines, i, base, key_text(k).len() as int) == Ok::<
            (Seq<char>, SpecValue, int),
            DecodeError,
        >((k, v, i + entry_lines(st, k, v, base).len())),
    decreases v, 0int,
{
    let kt = key_text(k);
    let e = entry_lines(st, k, v, base);
    lemma_entry_shape(st, k, v, base);
    assert(lines[i] == e[0]) by {
        assert(lines.subrange(i, i + e.len() as int)[0] == e[0]);
    }
    if v is Object && v->Object_0.len() > 0 {
        let inner = v->Object_0;
        let tail = Seq::<char>::empty();
        lemma_entry_content(k, tail);
        assert(kt + seq![':'] + tail =~= kt + seq![':']);
        let inner_lines = obj_lines(st, inner, base + 1);
        let first = seq![LineModel { depth: base, content: kt + seq![':'] }];
        assert(e == first + inner_lines);
        lemma_obj_shape(st, inner, base + 1);
        assert(holds_at(lines, i + 1, inner_lines)) by {
            assert(lines.subrange(i + 1, i + 1 + inner_lines.len() as int) =~= inner_lines) by {
                assert forall|x: int| 0 <= x < inner_lines.len() implies lines[i + 1 + x]
                    == inner_lines[x] by {
                    assert(lines.subrange(i, i + e.len() as int)[1 + x] == e[1 + x]);
                }
            }
        }
        assert(lines[i + 1] == inner_lines[0]);
        lemma_key_value_nested(lines, i, base, k);
        assert(Seq::<(Seq<char>, SpecValue)>::empty() + inner =~= inner);
        lemma_decode_object(lines, i + 1, base + 1, Seq::empty(), st, inner);
        assert forall|x: int| i + 1 <= x < i + e.len() implies #[trigger] lines[x].depth
            > base by {
            assert(lines[x] == inner_lines[x - i - 1]);
        }
        lemma_skip_to(lines, base, i + 1, i + e.len());
    } else {
        lemma_decode_entry_line(lines, i, base, st, k, v);
    }
}

/// The line of an inline array under a key is read as that entry, and reading
/// goes on at the next line.
proof fn lemma_decode_array_entry(
    lines: Seq<LineModel>,
    i: int,
    base: nat,
    st: Style,
    k: Seq<char>,
    a: Seq<SpecValue>,
    acc: Seq<(Seq<char>, SpecValue)>,
)
    requires
        key_reads_back(k),
        array_key_ok(k),
        inline_array_reads_back(st, a),
        0 <= i < lines.len(),
        lines[i] == (LineModel { depth: base, content: array_line(key_text(k), st, a) }),
        ends_above(lines, i + 1, base + 1),
    ensures
        object_lines(lines, base, i, acc) == object_lines(
            lines,
            base,
            i + 1,
            map_insert(acc, k, SpecValue::Array(a)),
        ),
        continuation_lines(lines, base, i, acc) == continuation_lines(
            lines,
            base,
            i + 1,
            map_insert(acc, k, SpecValue::Array(a)),
        ),
{
    lemma_array_line(key_text(k), Some(k), st, a);
    lemma_array_header(key_text(k), Some(k), st, a);
    lemma_delimited_items(st, a);
    lemma_skip_to(lines, base, i + 1, i + 1);
    let content = lines[i].content;
    let h = try_header_of(content)->0;
    assert(h.key == Some(k));
    assert(h.length == a.len() && a.len() > 0);
    assert(array_lines(lines, i, h) == Ok::<SpecValue, DecodeError>(SpecValue::Array(a)));
    assert(skip_deeper(lines, base, i + 1) == i + 1);
}

/// The lines of a table under a key are read as that entry, and reading goes
/// on after them.
proof fn lemma_decode_table_entry(
    lines: Seq<LineModel>,
    i: int,
    base: nat,
    st: Style,
    k: Seq<char>,
    a: Seq<SpecValue>,
    acc: Seq<(Seq<char>, SpecValue)>,
)
    requires
        key_reads_back(k),
        array_key_ok(k),
        tabular_reads_back(st, a),
        holds_at(lines, i, table_lines(key_text(k), st, keys_of(a[0]->Object_0), a, base)),
        lines[i].depth == base,
        ends_above(lines, i + 1 + a.len(), base + 1),
    ensures
        object_lines(lines, base, i, acc) == object_lines(
            lines,
            base,
            i + 1 + a.len(),
            map_insert(acc, k, SpecValue::Array(a)),
        ),
        continuation_lines(lines, base, i, acc) == continuation_lines(
            lines,
            base,
            i + 1 + a.len(),
            map_insert(acc, k, SpecValue::Array(a)),
        ),
{
    let ls = table_lines(key_text(k), st, keys_of(a[0]->Object_0), a, base);
    lemma_table_shape(key_text(k), Some(k), st, a, base);
    assert(lines[i] == ls[0]) by {
        assert(lines.subrange(i, i + ls.len() as int)[0] == ls[0]);
    }
    assert(ls.len() == 1 + a.len());
    lemma_table_array_lines(lines, i, key_text(k), Some(k), st, a);
    assert forall|x: int| i + 1 <= x < i + 1 + a.len() implies #[trigger] lines[x].depth > base by {
        assert(lines.subrange(i, i + ls.len() as int)[x - i] == ls[x - i]);
    }
    lemma_skip_to(lines, base, i + 1, i + 1 + a.len());
    let content = lines[i].content;
    let h = try_header_of(content)->0;
    assert(h.key == Some(k));
    assert(skip_deeper(lines, base, i + 1) == i + 1 + a.len());
}

/// The lines of an entry are read as the entry, and reading goes on after
/// them.
#[verifier::rlimit(100)]
#[verifier::spinoff_prover]
proof fn lemma_decode_step(
    lines: Seq<LineModel>,
    i: int,
    base: nat,
    acc: Seq<(Seq<char>, SpecValue)>,
    st: Style,
    k: Seq<char>,
    v: SpecValue,
)
    requires
        entry_reads_back(st, k, v),
        holds_at(lines, i, entry_lines(st, k, v, base)),
        ends_above(lines, i + entry_lines(st, k, v, base).len(), base + 1),
    ensures
        object_lines(lines, base, i, acc) == object_lines(
            lines,
            base,
            i + entry_lines(st, k, v, base).len(),
            map_insert(acc, k, v),
        ),
        continuation_lines(lines, base, i, acc) == continuation_lines(
            lines,
            base,
            i + entry_lines(st, k, v, base).len(),
            map_insert(acc, k, v),
        ),
    decreases v, 2int,
{
    let e = entry_lines(st, k, v, base);
    lemma_entry_shape(st, k, v, base);
    assert(lines[i] == e[0]) by {
        assert(lines.subrange(i, i + e.len() as int)[0] == e[0]);
    }
    if v is Array && v->Array_0.len() > 0 && tabular_reads_back(st, v->Array_0) {
        let a = v->Array_0;
        lemma_tabular_fields(st, a);
        lemma_decode_table_entry(lines, i, base, st, k, a, acc);
    } else if v is Array && v->Array_0.len() > 0 && expanded_reads_back(st, v->Array_0) {
        lemma_decode_list_entry(lines, i, base, st, k, v->Array_0, acc);
    } else if v is Array && v->Array_0.len() > 0 {
        let a = v->Array_0;
        lemma_items_primitive(st, a);
        assert(e[0] == (LineModel { depth: base, content: array_line(key_text(k), st, a) }));
        lemma_decode_array_entry(lines, i, base, st, k, a, acc);
    } else {
        lemma_decode_keyed_entry(lines, i, base, acc, st, k, v);
    }
}

/// The lines of an entry whose value is no array with items are read as the
/// entry, and reading goes on after them.
#[verifier::rlimit(100)]
#[verifier::spinoff_prover]
proof fn lemma_decode_keyed_entry(
    lines: Seq<LineModel>,
    i: int,
    base: nat,
    acc: Seq<(Seq<char>, SpecValue)>,
    st: Style,
    k: Seq<char>,
    v: SpecValue,
)
    requires
        entry_reads_back(st, k, v),
        !(v is Array && v->Array_0.len() > 0),
        holds_at(lines, i, entry_lines(st, k, v, base)),
        ends_above(lines, i + entry_lines(st, k, v, base).len(), base + 1),
    ensures
        object_lines(lines, base, i, acc) == object_lines(
            lines,
            base,
            i + entry_lines(st, k, v, base).len(),
            map_insert(acc, k, v),
        ),
        continuation_lines(lines, base, i, acc) == continuation_lines(
            lines,
            base,
            i + entry_lines(st, k, v, base).len(),
            map_insert(acc, k, v),
        ),
    decreases v, 1int,
{
    let e = entry_lines(st, k, v, base);
    lemma_entry_shape(st, k, v, base);
    assert(lines[i] == e[0]) by {
        assert(lines.subrange(i, i + e.len() as int)[0] == e[0]);
    }
    lemma_decode_entry(lines, i, base, st, k, v);
}

/// The lines of an object are read back as its entries, after those read
/// before them.
#[verifier::rlimit(100)]
#[verifier::spinoff_prover]
proof fn lemma_decode_object(
    lines: Seq<LineModel>,
    i: int,
    base: nat,
    acc: Seq<(Seq<char>, SpecValue)>,
    st: Style,
    m: Seq<(Seq<char>, SpecValue)>,
)
    requires
        entries_read_back(st, m),
        distinct_keys(acc + m),
        holds_at(lines, i, obj_lines(st, m, base)),
        ends_above(lines, i + obj_lines(st, m, base).len(), base),
    ensures
        object_lines(lines, base, i, acc) == Ok::<Seq<(Seq<char>, SpecValue)>, DecodeError>(
            acc + m,
        ),
        continuation_lines(lines, base, i, acc) == Ok::<Seq<(Seq<char>, SpecValue)>, DecodeError>(
            acc + m,
        ),
    decreases m, 1int,
{
    if m.len() == 0 {
        assert(acc + m =~= acc);
    } else {
        let e = entry_lines(st, m[0].0, m[0].1, base);
        let rest = obj_lines(st, m.drop_first(), base);
        let o = obj_lines(st, m, base);
        assert(o == e + rest);
        lemma_entry_shape(st, m[0].0, m[0].1, base);
        assert(holds_at(lines, i, e)) by {
            assert(lines.subrange(i, i + e.len() as int) =~= e) by {
                assert forall|x: int| 0 <= x < e.len() implies lines[i + x] == e[x] by {
                    assert(lines.subrange(i, i + o.len() as int)[x] == o[x]);
                }
            }
        }
        assert(holds_at(lines, i + e.len(), rest)) by {
            assert(lines.subrange(i + e.len() as int, i + e.len() + rest.len() as int) =~= rest)
                by {
                assert forall|x: int| 0 <= x < rest.len() implies lines[i + e.len() + x]
                    == rest[x] by {
                    assert(lines.subrange(i, i + o.len() as int)[e.len() + x] == o[e.len() + x]);
                }
            }
        }
        let next = i + e.len();
        assert(ends_above(lines, next, base + 1)) by {
            if rest.len() > 0 {
                lemma_obj_shape(st, m.drop_first(), base);
                assert(lines[next] == rest[0]) by {
                    assert(lines.subrange(next, next + rest.len() as int)[0] == rest[0]);
                }
            }
        }
        lemma_decode_step(lines, i, base, acc, st, m[0].0, m[0].1);
        lemma_new_key(acc, m);
        let acc2 = acc.push(m[0]);
        assert(acc2 + m.drop_first() =~= acc + m);
        assert(entries_read_back(st, m.drop_first()));
        lemma_decode_object(lines, next, base, acc2, st, m.drop_first());
    }
}

/// The lines of a list under a key are read as that entry, and reading goes
/// on after them.
#[verifier::rlimit(100)]
#[verifier::spinoff_prover]
proof fn lemma_decode_list_entry(
    lines: Seq<LineModel>,
    i: int,
    base: nat,
    st: Style,
    k: Seq<char>,
    a: Seq<SpecValue>,
    acc: Seq<(Seq<char>, SpecValue)>,
)
    requires
        key_reads_back(k),
        array_key_ok(k),
        expanded_reads_back(st, a),
        holds_at(lines, i, entry_lines(st, k, SpecValue::Array(a), base)),
        ends_above(lines, i + entry_lines(st, k, SpecValue::Array(a), base).len(), base + 1),
    ensures
        object_lines(lines, base, i, acc) == object_lines(
            lines,
            base,
            i + entry_lines(st, k, SpecValue::Array(a), base).len(),
            map_insert(acc, k, SpecValue::Array(a)),
        ),
        continuation_lines(lines, base, i, acc) == continuation_lines(
            lines,
            base,
            i + entry_lines(st, k, SpecValue::Array(a), base).len(),
            map_insert(acc, k, SpecValue::Array(a)),
        ),
    decreases a, 3int,
{
    let e = entry_lines(st, k, SpecValue::Array(a), base);
    let n = a.len();
    lemma_list_entry_shape(st, k, a, base);
    lemma_list_header(key_text(k), Some(k), n);
    let items = items_lines(st, a, base + 1);
    assert(lines[i] == e[0]) by {
        assert(lines.subrange(i, i + e.len() as int)[0] == e[0]);
    }
    assert(holds_at(lines, i + 1, items)) by {
        assert(lines.subrange(i + 1, i + 1 + items.len() as int) =~= items) by {
            assert forall|x: int| 0 <= x < items.len() implies lines[i + 1 + x] == items[x] by {
                assert(lines.subrange(i, i + e.len() as int)[1 + x] == e[1 + x]);
            }
        }
    }
    assert(Seq::<SpecValue>::empty() + a =~= a);
    lemma_decode_items(lines, i + 1, base, st, a, Seq::empty(), n);
    assert(e[0] == LineModel { depth: base, content: key_text(k) + count_text(n) + seq![':'] });
    let h = try_header_of(lines[i].content)->0;
    assert(array_lines(lines, i, h) == Ok::<SpecValue, DecodeError>(SpecValue::Array(a)));
    lemma_items_shape(st, a, base + 1);
    assert forall|x: int| i + 1 <= x < i + e.len() implies #[trigger] lines[x].depth > base by {
        assert(lines.subrange(i, i + e.len() as int)[x - i] == e[x - i]);
        assert(e[x - i] == items[x - i - 1]);
    }
    lemma_skip_to(lines, base, i + 1, i + e.len());
}

/// The lines of the items of a list are read as those items, after the items
/// read before them.
#[verifier::rlimit(100)]
#[verifier::spinoff_prover]
proof fn lemma_decode_items(
    lines: Seq<LineModel>,
    i: int,
    base: nat,
    st: Style,
    a: Seq<SpecValue>,
    acc: Seq<SpecValue>,
    n: nat,
)
    requires
        items_read_back(st, a),
        acc.len() + a.len() == n,
        holds_at(lines, i, items_lines(st, a, base + 1)),
        ends_above(lines, i + items_lines(st, a, base + 1).len(), base + 2),
    ensures
        expanded_lines(lines, base, i, n, acc) == Ok::<Seq<SpecValue>, DecodeError>(acc + a),
    decreases a, 2int,
{
    if a.len() == 0 {
        assert(acc + a =~= acc);
    } else {
        let e = expanded_item_lines(st, a[0], base + 1);
        let rest = items_lines(st, a.drop_first(), base + 1);
        let o = items_lines(st, a, base + 1);
        assert(o == e + rest);
        lemma_item_shape(st, a[0], base + 1);
        assert(holds_at(lines, i, e)) by {
            assert(lines.subrange(i, i + e.len() as int) =~= e) by {
                assert forall|x: int| 0 <= x < e.len() implies lines[i + x] == e[x] by {
                    assert(lines.subrange(i, i + o.len() as int)[x] == o[x]);
                }
            }
        }
        assert(holds_at(lines, i + e.len(), rest)) by {
            assert(lines.subrange(i + e.len() as int, i + e.len() + rest.len() as int) =~= rest)
                by {
                assert forall|x: int| 0 <= x < rest.len() implies lines[i + e.len() + x]
                    == rest[x] by {
                    assert(lines.subrange(i, i + o.len() as int)[e.len() + x] == o[e.len() + x]);
                }
            }
        }
        let next = i + e.len();
        assert(ends_above(lines, next, base + 2)) by {
            if rest.len() > 0 {
                lemma_items_shape(st, a.drop_first(), base + 1);
                assert(lines[next] == rest[0]) by {
                    assert(lines.subrange(next, next + rest.len() as int)[0] == rest[0]);
                }
            }
        }
        lemma_decode_item(lines, i, base, st, a[0], acc, n);
        assert(acc.push(a[0]) + a.drop_first() =~= acc + a);
        lemma_decode_items(lines, next, base, st, a.drop_first(), acc.push(a[0]), n);
    }
}

/// The lines of one item of a list are read as the item, and reading goes on
/// after them.
proof fn lemma_decode_item(
    lines: Seq<LineModel>,
    i: int,
    base: nat,
    st: Style,
    v: SpecValue,
    acc: Seq<SpecValue>,
    n: nat,
)
    requires
        list_item_reads_back(st, v),
        acc.len() < n,
        holds_at(lines, i, expanded_item_lines(st, v, base + 1)),
        ends_above(lines, i + expanded_item_lines(st, v, base + 1).len(), base + 2),
    ensures
        expanded_lines(lines, base, i, n, acc) == expanded_lines(
            lines,
            base,
            i + expanded_item_lines(st, v, base + 1).len(),
            n,
            acc.push(v),
        ),
    decreases v, 1int,
{
    if v is Object && v->Object_0.len() > 0 {
        lemma_decode_object_item(lines, i, base, st, v->Object_0, acc, n);
    } else {
        lemma_decode_item_line(lines, i, base, st, v, acc, n);
    }
}

/// The lines of an object item of a list are read as the object, and reading
/// goes on after them.
#[verifier::rlimit(100)]
#[verifier::spinoff_prover]
proof fn lemma_decode_object_item(
    lines: Seq<LineModel>,
    i: int,
    base: nat,
    st: Style,
    o: Seq<(Seq<char>, SpecValue)>,
    acc: Seq<SpecValue>,
    n: nat,
)
    requires
        list_object_reads_back(st, o),
        acc.len() < n,
        holds_at(lines, i, list_object_lines(st, o, base + 1)),
        ends_above(lines, i + list_object_lines(st, o, base + 1).len(), base + 2),
    ensures
        expanded_lines(lines, base, i, n, acc) == expanded_lines(
            lines,
            base,
            i + list_object_lines(st, o, base + 1).len(),
            n,
            acc.push(SpecValue::Object(o)),
        ),
    decreases o, 3int,
{
    let e = list_object_lines(st, o, base + 1);
    lemma_list_object_shape(st, o, base + 1);
    assert(lines[i] == e[0]) by {
        assert(lines.subrange(i, i + e.len() as int)[0] == e[0]);
    }
    lemma_list_first_line(st, o);
    lemma_dash_line(base + 1, list_first_rest(st, o));
    lemma_decode_list_object(lines, i, base, st, o);
    assert forall|x: int| i + 1 <= x < i + e.len() implies #[trigger] lines[x].depth > base + 1 by {
        assert(lines.subrange(i, i + e.len() as int)[x - i] == e[x - i]);
    }
    lemma_skip_to(lines, base + 1, i + 1, i + e.len());
}

/// The one line of an item of a list that is no object with entries is read
/// as the item, and reading goes on at the next line.
#[verifier::rlimit(100)]
#[verifier::spinoff_prover]
proof fn lemma_decode_item_line(
    lines: Seq<LineModel>,
    i: int,
    base: nat,
    st: Style,
    v: SpecValue,
    acc: Seq<SpecValue>,
    n: nat,
)
    requires
        list_item_reads_back(st, v),
        !(v is Object && v->Object_0.len() > 0),
        acc.len() < n,
        holds_at(lines, i, expanded_item_lines(st, v, base + 1)),
    ensures
        expanded_item_lines(st, v, base + 1).len() == 1,
        expanded_lines(lines, base, i, n, acc) == expanded_lines(lines, base, i + 1, n, acc.push(v)),
{
    let e = expanded_item_lines(st, v, base + 1);
    lemma_item_rest(st, v);
    let r = item_rest(st, v);
    lemma_dash_line(base + 1, r);
    assert(e =~= seq![dash_line(base + 1, r)]);
    assert(lines[i] == e[0]) by {
        assert(lines.subrange(i, i + e.len() as int)[0] == e[0]);
    }
    match v {
        SpecValue::Array(b) => {
            if b.len() > 0 {
                lemma_items_primitive(st, b);
                assert(r =~= Seq::<char>::empty() + count_text(b.len()) + seq![':', ' ']
                    + items_text(st, b));
                lemma_array_header(Seq::empty(), None, st, b);
                lemma_delimited_items(st, b);
            } else {
                assert(b =~= Seq::<SpecValue>::empty());
                lemma_trim_id(r);
                assert(forall|x: int| 0 <= x < r.len() ==> r[x] != ':');
                lemma_find_none(r, ':');
            }
        },
        SpecValue::Object(o) => {
            assert(o =~= Seq::<(Seq<char>, SpecValue)>::empty());
            lemma_trim_id(r);
            assert(forall|x: int| 0 <= x < r.len() ==> r[x] != ':');
            lemma_find_none(r, ':');
        },
        _ => {
            lemma_primitive_round_trip(st, v);
        },
    }
}

/// The first line of an object written as a list item is read as its first
/// entry, the others following on the lines after it.
#[verifier::rlimit(100)]
#[verifier::spinoff_prover]
proof fn lemma_list_first(
    lines: Seq<LineModel>,
    i: int,
    base: nat,
    st: Style,
    o: Seq<(Seq<char>, SpecValue)>,
)
    requires
        list_object_reads_back(st, o),
        0 <= i < lines.len(),
        lines[i] == dash_line(base + 1, list_first_rest(st, o)),
    ensures
        list_item_lines(lines, i, base) == continuation_lines(lines, base + 2, i + 1, seq![o[0]]),
{
    let k = o[0].0;
    let v = o[0].1;
    let kt = key_text(k);
    let rest = list_first_rest(st, o);
    lemma_list_first_line(st, o);
    lemma_dash_line(base + 1, rest);
    assert(item_content(lines[i].content) == rest);
    lemma_new_key(Seq::empty(), o);
    assert(Seq::<(Seq<char>, SpecValue)>::empty() + o =~= o);
    assert(Seq::<(Seq<char>, SpecValue)>::empty().push(o[0]) =~= seq![o[0]]);
    if v is Array && v->Array_0.len() > 0 {
        let b = v->Array_0;
        lemma_items_primitive(st, b);
        assert(rest =~= array_line(kt, st, b));
        lemma_array_header(kt, Some(k), st, b);
        lemma_delimited_items(st, b);
    } else {
        lemma_short_tail(st, v);
        let tail = short_tail(st, v);
        assert(first_tail(st, v) =~= seq![':'] + tail);
        assert(rest =~= kt + seq![':'] + tail);
        lemma_entry_content(k, tail);
        lemma_key_text(k);
        assert(rest.subrange(kt.len() + 1int, rest.len() as int) =~= tail);
    }
}

/// The lines of an object written as a list item are read as that object.
#[verifier::rlimit(100)]
#[verifier::spinoff_prover]
proof fn lemma_decode_list_object(
    lines: Seq<LineModel>,
    i: int,
    base: nat,
    st: Style,
    o: Seq<(Seq<char>, SpecValue)>,
)
    requires
        list_object_reads_back(st, o),
        holds_at(lines, i, list_object_lines(st, o, base + 1)),
        ends_above(lines, i + list_object_lines(st, o, base + 1).len(), base + 2),
    ensures
        list_item_lines(lines, i, base) == Ok::<Seq<(Seq<char>, SpecValue)>, DecodeError>(o),
    decreases o, 2int,
{
    let ls = list_object_lines(st, o, base + 1);
    lemma_list_object_shape(st, o, base + 1);
    assert(lines[i] == ls[0]) by {
        assert(lines.subrange(i, i + ls.len() as int)[0] == ls[0]);
    }
    lemma_list_first(lines, i, base, st, o);
    let more = obj_lines(st, o.drop_first(), base + 2);
    assert(ls == seq![ls[0]] + more);
    assert(holds_at(lines, i + 1, more)) by {
        assert(lines.subrange(i + 1, i + 1 + more.len() as int) =~= more) by {
            assert forall|x: int| 0 <= x < more.len() implies lines[i + 1 + x] == more[x] by {
                assert(lines.subrange(i, i + ls.len() as int)[1 + x] == ls[1 + x]);
            }
        }
    }
    assert(seq![o[0]] + o.drop_first() =~= o);
    lemma_decode_object(lines, i + 1, base + 2, seq![o[0]], st, o.drop_first());
}

// ---------------------------------------------------------------------------
// Documents
// ---------------------------------------------------------------------------
/// The first line of an entry is no `{}`, holds a colon, and is no array
/// header or one with a key.
#[verifier::rlimit(100)]
#[verifier::spinoff_prover]
proof fn lemma_first_line(st: Style, k: Seq<char>, v: SpecValue, depth: nat)
    requires
        entry_reads_back(st, k, v),
    ensures
        ({
            let c = entry_lines(st, k, v, depth)[0].content;
            &&& c[0] != '{'
            &&& contains_char(c, ':')
            &&& (try_header_of(c) is None || try_header_of(c)->0.key is Some)
        }),
{
    let kt = key_text(k);
    let c = entry_lines(st, k, v, depth)[0].content;
    if v is Array && v->Array_0.len() > 0 && tabular_reads_back(st, v->Array_0) {
        let a = v->Array_0;
        lemma_tabular_fields(st, a);
        let fs = keys_of(a[0]->Object_0);
        let first = a[0]->Object_0;
        assert(inline_array_reads_back(st, crate::tabular_round_trip::values_of(first)));
        assert forall|j: int| 0 <= j < fs.len() implies crate::tabular_round_trip::field_reads_back(
            #[trigger] fs[j],
        ) by {
            assert(fs[j] == first[j].0);
        }
        assert(c == table_header(kt, st, fs, a.len()));
        lemma_table_header_line(kt, Some(k), st, fs, a.len());
        lemma_table_header(kt, Some(k), st, fs, a.len());
    } else if v is Array && v->Array_0.len() > 0 && expanded_reads_back(st, v->Array_0) {
        let a = v->Array_0;
        lemma_list_entry_shape(st, k, a, depth);
        lemma_list_header(key_text(k), Some(k), a.len());
        assert(c == kt + count_text(a.len()) + seq![':']);
    } else if v is Array && v->Array_0.len() > 0 {
        let a = v->Array_0;
        lemma_items_primitive(st, a);
        assert(c =~= array_line(kt, st, a));
        lemma_array_line(kt, Some(k), st, a);
        lemma_array_header(kt, Some(k), st, a);
    } else if v is Object && v->Object_0.len() > 0 {
        let tail = Seq::<char>::empty();
        lemma_entry_content(k, tail);
        assert(c =~= kt + seq![':'] + tail);
    } else if v is Object {
        let tail = seq![' ', '{', '}'];
        lemma_entry_content(k, tail);
        assert(c =~= kt + seq![':'] + tail);
    } else if v is Array {
        let tail = seq![' ', '[', ']'];
        lemma_entry_content(k, tail);
        assert(c =~= kt + seq![':'] + tail);
    } else {
        let tail = seq![' '] + primitive_text(st, v);
        lemma_entry_content(k, tail);
        assert(c =~= kt + seq![':'] + tail);
    }
}

/// The first indented line of lines that start at depth at most one and go
/// down one level at a time is one space deep.
proof fn lemma_first_indent_lines(ls: Seq<LineModel>)
    requires
        clean_lines(ls),
        ls.len() > 0 ==> ls[0].depth <= 1,
        forall|j: int| 0 < j < ls.len() ==> #[trigger] ls[j].depth <= ls[j - 1].depth + 1,
    ensures
        first_indent(ls.map_values(|l: LineModel| line_text(l))) is None || first_indent(
            ls.map_values(|l: LineModel| line_text(l)),
        ) == Some(1nat),
    decreases ls.len(),
{
    let m = ls.map_values(|l: LineModel| line_text(l));
    if ls.len() > 0 {
        assert(clean_line(ls[0]));
        lemma_trim_spaces(ls[0].depth, ls[0].content);
        assert(m[0] == line_text(ls[0]));
        let r = ls.drop_first();
        assert(m.drop_first() =~= r.map_values(|l: LineModel| line_text(l)));
        assert(clean_lines(r)) by {
            assert forall|k: int| 0 <= k < r.len() implies clean_line(#[trigger] r[k]) by {
                assert(r[k] == ls[k + 1]);
            }
        }
        assert forall|j: int| 0 < j < r.len() implies #[trigger] r[j].depth <= r[j - 1].depth + 1 by {
            assert(r[j] == ls[j + 1] && r[j - 1] == ls[j]);
        }
        if ls[0].depth == 0 {
            if ls.len() > 1 {
                assert(r[0] == ls[1]);
                assert(ls[1].depth <= ls[0].depth + 1);
            }
            lemma_first_indent_lines(r);
        }
    }
}

/// Lines of the shape of an object's lines at depth 0, joined, make the
/// decoder detect one space per level.
proof fn lemma_detected_indent(ls: Seq<LineModel>)
    requires
        lines_shape(ls, 0),
    ensures
        detected_indent(1, true, joined(ls)) == 1,
{
    let t = joined(ls);
    assert(t.subrange(0, t.len() as int) =~= t);
    lemma_lines_joined(t, 0, ls);
    lemma_first_indent_lines(ls);
    let l0 = line_text(ls[0]);
    assert(clean_line(ls[0]));
    lemma_find_from(ls[0].content, '\n', 0);
    assert forall|k: int| 0 <= k < l0.len() implies l0[k] != '\n' by {
        if k >= ls[0].depth {
            assert(l0[k] == ls[0].content[k - ls[0].depth]);
        }
    }
    if ls.len() == 1 {
        assert(t == l0);
        lemma_find_from(t, '\n', 0);
        assert(indent_after_newline(t) is None);
    } else {
        let rest = ls.drop_first();
        assert(t == l0 + seq!['\n'] + joined(rest));
        assert(t[l0.len() as int] == '\n');
        lemma_find_first(t, '\n', l0.len() as int);
        let after = t.subrange(l0.len() + 1int, t.len() as int);
        assert(after =~= joined(rest));
        let l1 = ls[1];
        assert(rest[0] == l1);
        assert(clean_line(l1));
        lemma_trimmed_ends(l1.content);
        let lt1 = line_text(l1);
        assert forall|k: int| 0 <= k < lt1.len() implies after[k] == lt1[k] by {
            if rest.len() == 1 {
                assert(joined(rest) == lt1);
            } else {
                assert(joined(rest) == lt1 + seq!['\n'] + joined(rest.drop_first()));
            }
        }
        assert(after[l1.depth as int] == l1.content[0]);
        assert(forall|k: int| 0 <= k < l1.depth ==> after[k] == ' ');
        lemma_lead_ws_spaces(after, l1.depth, 0);
        assert(l1.depth <= 1);
    }
}

/// A value that a document reads back as: an object whose entries read back
/// (see `entries_read_back`) with no repeated key, an empty array, an array
/// that reads back inline, as a table or as a list, or a primitive that reads
/// back and whose text has no colon.
pub open spec fn document_reads_back(st: Style, v: SpecValue) -> bool {
    match v {
        SpecValue::Object(m) => distinct_keys(m) && entries_read_back(st, m),
        SpecValue::Array(a) => a.len() == 0 || inline_array_reads_back(st, a) || tabular_reads_back(
            st,
            a,
        ) || expanded_reads_back(st, a),
        _ => reads_back(st, v) && !contains_char(primitive_text(st, v), ':'),
    }
}

/// A document of one line is read with one space per level.
proof fn lemma_one_line(c: Seq<char>)
    requires
        clean_line(LineModel { depth: 0, content: c }),
    ensures
        joined(seq![LineModel { depth: 0, content: c }]) == c,
        detected_indent(1, true, c) == 1,
        text_lines(c, 1) == seq![LineModel { depth: 0, content: c }],
{
    let l = LineModel { depth: 0, content: c };
    let ls = seq![l];
    assert(spaces(0) + c =~= c);
    assert(joined(ls) == c);
    lemma_text_lines_joined(ls);
    assert(c.subrange(0, c.len() as int) =~= c);
    lemma_lines_joined(c, 0, ls);
    assert(ls.map_values(|l: LineModel| line_text(l)) =~= seq![c]);
    lemma_trim_spaces(0, c);
    assert(lead_spaces(c) == 0);
    assert(seq![c][0] == c);
    assert(seq![c].drop_first() =~= Seq::<Seq<char>>::empty());
    assert(first_indent(seq![c].drop_first()) is None);
    assert(first_indent(seq![c]) is None);
    lemma_find_from(c, '\n', 0);
    assert(indent_after_newline(c) is None);
}

/// A document of one clean line that the scan for semicolons passes through
/// is decoded from that line, whether or not it is taken for minified.
proof fn lemma_one_line_decoded(c: Seq<char>)
    requires
        clean_line(LineModel { depth: 0, content: c }),
        min_passes(c),
    ensures
        decoded(1, true, c) == document_of(seq![LineModel { depth: 0, content: c }]),
{
    lemma_one_line(c);
    if is_minified(c) {
        lemma_minified_one_line(c);
    }
}

/// A document written as lines of the shape of an object's lines is decoded
/// from those lines, where a single line passes the scan for semicolons.
proof fn lemma_lines_decoded(ls: Seq<LineModel>)
    requires
        lines_shape(ls, 0),
        ls.len() == 1 ==> min_passes(ls[0].content),
    ensures
        decoded(1, true, joined(ls)) == document_of(ls),
{
    let t = joined(ls);
    if ls.len() == 1 {
        let c = ls[0].content;
        let l = LineModel { depth: 0, content: c };
        assert(ls[0] == l);
        assert(ls =~= seq![l]);
        assert(clean_line(ls[0]));
        lemma_one_line_decoded(c);
        lemma_one_line(c);
    } else {
        lemma_detected_indent(ls);
        lemma_text_lines_joined(ls);
        let l0 = line_text(ls[0]);
        assert(t == l0 + seq!['\n'] + joined(ls.drop_first()));
        assert(t[l0.len() as int] == '\n');
        lemma_find_from(t, '\n', 0);
        assert(!is_minified(t));
    }
}

/// The one line of an entry passes the scan for semicolons.
proof fn lemma_single_entry_passes(st: Style, k: Seq<char>, v: SpecValue, depth: nat)
    requires
        entry_reads_back(st, k, v),
        entry_lines(st, k, v, depth).len() == 1,
    ensures
        min_passes(entry_lines(st, k, v, depth)[0].content),
{
    let kt = key_text(k);
    let c = entry_lines(st, k, v, depth)[0].content;
    if v is Object && v->Object_0.len() > 0 {
        lemma_obj_shape(st, v->Object_0, depth + 1);
        assert(false);
    } else if v is Array && v->Array_0.len() > 0 && tabular_reads_back(st, v->Array_0) {
        lemma_tabular_fields(st, v->Array_0);
        assert(false);
    } else if v is Array && v->Array_0.len() > 0 && expanded_reads_back(st, v->Array_0) {
        lemma_list_entry_shape(st, k, v->Array_0, depth);
        lemma_items_shape(st, v->Array_0, depth + 1);
        assert(false);
    } else if v is Array && v->Array_0.len() > 0 {
        let a = v->Array_0;
        lemma_items_primitive(st, a);
        assert(c =~= array_line(kt, st, a));
        assert forall|i: int| 0 <= i < a.len() implies item_reads_back(st, #[trigger] a[i]) by {}
        lemma_array_line_passes(kt, Some(k), st, a);
    } else {
        let tail = match v {
            SpecValue::Object(_) => seq![' ', '{', '}'],
            SpecValue::Array(_) => seq![' ', '[', ']'],
            _ => seq![' '] + primitive_text(st, v),
        };
        assert(c =~= kt + seq![':'] + tail);
        lemma_entry_line_passes(k, st, v, tail);
    }
}

/// The text of a primitive starts with no `#` and no `@`.
pub(crate) proof fn lemma_primitive_start(st: Style, v: SpecValue)
    requires
        reads_back(st, v),
    ensures
        primitive_text(st, v).len() > 0,
        primitive_text(st, v)[0] != '#',
        primitive_text(st, v)[0] != '@',
{
    lemma_primitive_round_trip(st, v);
    let pt = primitive_text(st, v);
    match v {
        SpecValue::Integer(n) => {
            if n < 0 {
                assert(pt[0] == '-');
            } else {
                lemma_nat_text(n as nat);
                assert(is_digit(pt[0]));
            }
        },
        SpecValue::Float(t) => {
            assert(float_reads_back(t));
        },
        SpecValue::Str(s) => {
            if safe_unquoted(st, s) {
                assert(pt == s);
                match st.quoting {
                    Quoting::Bytes => {
                        if s[0] == '#' || s[0] == '@' {
                            let j = lemma_ascii_byte(s, 0);
                            assert(value_unsafe_byte(encode_utf8(s)[j]));
                        }
                    },
                    Quoting::Parsed => {
                        assert(!value_unsafe_char(s[0]));
                    },
                }
            } else {
                assert(pt == quoted(s));
                assert(pt[0] == '"');
            }
        },
        _ => {},
    }
}

/// An object written on one line has one entry, written on that line.
proof fn lemma_obj_shape_len(st: Style, m: Seq<(Seq<char>, SpecValue)>)
    requires
        m.len() > 0,
        entries_read_back(st, m),
        obj_lines(st, m, 0).len() == 1,
    ensures
        entry_lines(st, m[0].0, m[0].1, 0).len() == 1,
{
    lemma_entry_shape(st, m[0].0, m[0].1, 0);
    if m.len() > 1 {
        lemma_obj_shape(st, m.drop_first(), 0);
    }
    assert(obj_lines(st, m, 0) == entry_lines(st, m[0].0, m[0].1, 0) + obj_lines(
        st,
        m.drop_first(),
        0,
    ));
}

/// A document of a non-empty object is read back as the object.
#[verifier::rlimit(100)]
#[verifier::spinoff_prover]
proof fn lemma_object_document(st: Style, m: Seq<(Seq<char>, SpecValue)>)
    requires
        m.len() > 0,
        distinct_keys(m),
        entries_read_back(st, m),
    ensures
        decoded(1, true, document_text(1, st, SpecValue::Object(m))) == Ok::<SpecValue, DecodeError>(SpecValue::Object(m)),
{
    let t = document_text(1, st, SpecValue::Object(m));
    let ls = obj_lines(st, m, 0);
    lemma_object_text(st, m, 0);
    assert(t == joined(ls));
    lemma_obj_shape(st, m, 0);
    if ls.len() == 1 {
        lemma_entry_shape(st, m[0].0, m[0].1, 0);
        lemma_obj_shape_len(st, m);
        lemma_single_entry_passes(st, m[0].0, m[0].1, 0);
        assert(ls[0] == entry_lines(st, m[0].0, m[0].1, 0)[0]);
    }
    lemma_lines_decoded(ls);
    lemma_first_line(st, m[0].0, m[0].1, 0);
    lemma_entry_shape(st, m[0].0, m[0].1, 0);
    assert(ls == entry_lines(st, m[0].0, m[0].1, 0) + obj_lines(st, m.drop_first(), 0));
    assert(ls[0] == entry_lines(st, m[0].0, m[0].1, 0)[0]);
    assert(ls.subrange(0, ls.len() as int) =~= ls);
    assert(Seq::<(Seq<char>, SpecValue)>::empty() + m =~= m);
    lemma_decode_object(ls, 0, 0, Seq::empty(), st, m);
}

/// A document of a non-empty inline array is read back as the array.
#[verifier::rlimit(60)]
proof fn lemma_inline_array_document(st: Style, a: Seq<SpecValue>)
    requires
        inline_array_reads_back(st, a),
    ensures
        decoded(1, true, document_text(1, st, SpecValue::Array(a))) == Ok::<SpecValue, DecodeError>(
            SpecValue::Array(a),
        ),
{
    let t = document_text(1, st, SpecValue::Array(a));
    let e = Seq::<char>::empty();
    lemma_items_primitive(st, a);
    let c = array_line(e, st, a);
    assert(t =~= c);
    lemma_array_line(e, None, st, a);
    assert forall|i: int| 0 <= i < a.len() implies item_reads_back(st, #[trigger] a[i]) by {}
    lemma_array_line_passes(e, None, st, a);
    lemma_one_line_decoded(c);
    lemma_array_header(e, None, st, a);
    lemma_delimited_items(st, a);
    let h = try_header_of(c)->0;
    assert(h.length == a.len());
    assert(array_lines(seq![LineModel { depth: 0, content: c }], 0, h) == Ok::<SpecValue, DecodeError>(
        SpecValue::Array(a),
    ));
}

/// A document of a table is read back as the array.
#[verifier::rlimit(60)]
proof fn lemma_table_document(st: Style, a: Seq<SpecValue>)
    requires
        tabular_reads_back(st, a),
    ensures
        decoded(1, true, document_text(1, st, SpecValue::Array(a))) == Ok::<SpecValue, DecodeError>(
            SpecValue::Array(a),
        ),
{
    let t = document_text(1, st, SpecValue::Array(a));
    let e = Seq::<char>::empty();
    lemma_tabular_fields(st, a);
    let fs = keys_of(a[0]->Object_0);
    let ls = table_lines(e, st, fs, a, 0);
    lemma_table_text(None, st, a, 0);
    assert(opt_key_text(None) == e);
    assert(t == joined(ls));
    lemma_table_shape(e, None, st, a, 0);
    lemma_detected_indent(ls);
    lemma_text_lines_joined(ls);
    assert(ls.len() >= 2);
    assert(t == line_text(ls[0]) + seq!['\n'] + joined(ls.drop_first()));
    assert(t[line_text(ls[0]).len() as int] == '\n');
    lemma_find_from(t, '\n', 0);
    assert(!is_minified(t));
    assert(ls.subrange(0, 1 + a.len() as int) =~= ls);
    lemma_table_array_lines(ls, 0, e, None, st, a);
}

/// The lines of a document of an array written as list items: its header,
/// then its items one level deeper.
pub open spec fn list_document_lines(st: Style, a: Seq<SpecValue>) -> Seq<LineModel> {
    seq![LineModel { depth: 0, content: count_text(a.len()) + seq![':'] }] + items_lines(st, a, 1)
}

/// A document of an array written as list items is its lines joined, and they
/// have the shape of lines at the top.
#[verifier::rlimit(100)]
#[verifier::spinoff_prover]
proof fn lemma_list_document_text(st: Style, a: Seq<SpecValue>)
    requires
        expanded_reads_back(st, a),
    ensures
        document_text(1, st, SpecValue::Array(a)) == joined(list_document_lines(st, a)),
        lines_shape(list_document_lines(st, a), 0),
{
    let t = document_text(1, st, SpecValue::Array(a));
    let e = Seq::<char>::empty();
    let n = a.len();
    let c = count_text(n) + seq![':'];
    let hl = seq![LineModel { depth: 0, content: c }];
    let items = items_lines(st, a, 1);
    let ls = list_document_lines(st, a);
    assert(ls == hl + items);
    lemma_items_expanded_text(st, a, 0);
    lemma_items_shape(st, a, 1);
    lemma_joined_concat(hl, items);
    assert(spaces(0) + c =~= c);
    assert(opt_key_text(None) == e);
    assert(t =~= c + seq!['\n'] + joined(items));
    lemma_list_header(e, None, n);
    assert(e + count_text(n) + seq![':'] =~= c);
    assert(ls[0] == hl[0]);
    assert forall|i: int| 0 <= i < ls.len() implies clean_line(#[trigger] ls[i]) && ls[i].depth
        >= 0 by {
        if i > 0 {
            assert(ls[i] == items[i - 1]);
        }
    }
    assert forall|j: int| 0 < j < ls.len() implies #[trigger] ls[j].depth <= ls[j - 1].depth + 1 by {
        assert(ls[j] == items[j - 1]);
        if j > 1 {
            assert(ls[j - 1] == items[j - 2]);
        }
    }
}

/// The lines of a document of an array written as list items are read as the
/// array.
#[verifier::rlimit(100)]
#[verifier::spinoff_prover]
proof fn lemma_list_document_of(st: Style, a: Seq<SpecValue>)
    requires
        expanded_reads_back(st, a),
    ensures
        document_of(list_document_lines(st, a)) == Ok::<SpecValue, DecodeError>(SpecValue::Array(a)),
{
    let e = Seq::<char>::empty();
    let n = a.len();
    let c = count_text(n) + seq![':'];
    let items = items_lines(st, a, 1);
    let ls = list_document_lines(st, a);
    lemma_items_shape(st, a, 1);
    lemma_list_header(e, None, n);
    assert(e + count_text(n) + seq![':'] =~= c);
    assert(ls[0].content == c);
    assert(holds_at(ls, 1, items)) by {
        assert(ls.subrange(1, 1 + items.len() as int) =~= items);
    }
    assert(Seq::<SpecValue>::empty() + a =~= a);
    lemma_decode_items(ls, 1, 0, st, a, Seq::empty(), n);
    let h = try_header_of(c)->0;
    assert(array_lines(ls, 0, h) == Ok::<SpecValue, DecodeError>(SpecValue::Array(a)));
    assert(ls.len() > 1);
}

/// A document of an array written as list items is read back as the array.
proof fn lemma_list_document(st: Style, a: Seq<SpecValue>)
    requires
        expanded_reads_back(st, a),
    ensures
        decoded(1, true, document_text(1, st, SpecValue::Array(a))) == Ok::<SpecValue, DecodeError>(
            SpecValue::Array(a),
        ),
{
    lemma_list_document_text(st, a);
    lemma_items_shape(st, a, 1);
    lemma_lines_decoded(list_document_lines(st, a));
    lemma_list_document_of(st, a);
}

/// A document of an array is read back as the array.
proof fn lemma_array_document(st: Style, a: Seq<SpecValue>)
    requires
        a.len() == 0 || inline_array_reads_back(st, a) || tabular_reads_back(st, a)
            || expanded_reads_back(st, a),
    ensures
        decoded(1, true, document_text(1, st, SpecValue::Array(a))) == Ok::<SpecValue, DecodeError>(
            SpecValue::Array(a),
        ),
{
    let t = document_text(1, st, SpecValue::Array(a));
    if a.len() == 0 {
        let c = seq!['[', ']'];
        assert(t == c);
        lemma_trim_id(c);
        lemma_find_none(c, '\n');
        lemma_min_plain(c, 0, 2);
        lemma_one_line_decoded(c);
        lemma_find_none(c, ':');
        lemma_find_from(c, '[', 0);
        assert(try_header_of(c) is None);
        assert(a =~= Seq::<SpecValue>::empty());
    } else if tabular_reads_back(st, a) {
        lemma_table_document(st, a);
    } else if expanded_reads_back(st, a) {
        lemma_list_document(st, a);
    } else {
        lemma_inline_array_document(st, a);
    }
}

/// A document of a primitive is read back as the primitive.
proof fn lemma_primitive_document(st: Style, v: SpecValue)
    requires
        v.is_primitive(),
        reads_back(st, v),
        !contains_char(primitive_text(st, v), ':'),
    ensures
        decoded(1, true, document_text(1, st, v)) == Ok::<SpecValue, DecodeError>(v),
{
    let t = document_text(1, st, v);
    let pt = primitive_text(st, v);
    lemma_primitive_no_line_feed(st, v);
    assert(t == pt);
    lemma_primitive_round_trip(st, v);
    lemma_primitive_start(st, v);
    lemma_trimmed_ends(pt);
    assert(!skipped(pt)) by {
        lemma_find_from(pt, ':', 0);
        if pt.len() >= 2 {
            assert(pt.subrange(0, 2)[0] == pt[0]);
            assert(pt.subrange(0, 2)[1] == pt[1]);
        }
        if pt.len() >= 4 {
            assert(pt.subrange(0, 4)[3] == pt[3]);
        }
        if pt.len() >= 5 {
            assert(pt.subrange(0, 5)[0] == pt[0]);
        }
    }
    lemma_primitive_passes(st, v);
    lemma_one_line_decoded(pt);
    lemma_find_from(pt, '[', 0);
    assert(try_header_of(pt) is None);
    assert(pt != seq!['{', '}']) by {
        if pt == seq!['{', '}'] {
            assert(primitive_of(pt) == SpecValue::Object(Seq::empty()));
        }
    }
}

/// Decoding gives back what encoding wrote: a document written with one space
/// per level is read back as the value it was written from, where the value
/// reads back as a document (see `document_reads_back`).
pub proof fn lemma_document_round_trip(st: Style, v: SpecValue)
    requires
        document_reads_back(st, v),
    ensures
        decoded(1, true, document_text(1, st, v)) == Ok::<SpecValue, DecodeError>(v),
{
    match v {
        SpecValue::Object(m) => {
            if m.len() == 0 {
                let t = document_text(1, st, v);
                let c = seq!['{', '}'];
                assert(t == c);
                lemma_trim_id(c);
                lemma_find_none(c, '\n');
                lemma_min_plain(c, 0, 2);
                lemma_one_line_decoded(c);
                assert(m =~= Seq::<(Seq<char>, SpecValue)>::empty());
            } else {
                lemma_object_document(st, m);
            }
        },
        SpecValue::Array(a) => {
            lemma_array_document(st, a);
        },
        _ => {
            lemma_primitive_document(st, v);
        },
    }
}

/// Encoding again what a document reads back as gives the same text: for a
/// value that reads back as a document, the text written for it decodes to a
/// value whose text is that text again.
pub proof fn lemma_reencode(st: Style, v: SpecValue)
    requires
        document_reads_back(st, v),
    ensures
        decoded(1, true, document_text(1, st, v)) matches Ok(w) && document_text(1, st, w)
            == document_text(1, st, v),
{
    lemma_document_round_trip(st, v);
}

} // verus!
