//! The text that the encoders write: quoting and escaping of strings and keys,
//! primitives, indentation, and the layout of objects, arrays and list items.
use vstd::prelude::*;
use vstd::utf8::encode_utf8;
use crate::syntax::{float_literal, i64_literal};
use crate::text::int_text;
use crate::value::{map_get, SpecValue};

verus! {

// ---------------------------------------------------------------------------
// Sequences joined with a separator
// ---------------------------------------------------------------------------
/// `parts` joined by `sep`.
pub open spec fn join(parts: Seq<Seq<char>>, sep: Seq<char>) -> Seq<char>
    decreases parts.len(),
{
    if parts.len() == 0 {
        Seq::empty()
    } else if parts.len() == 1 {
        parts[0]
    } else {
        join(parts.drop_last(), sep) + sep + parts.last()
    }
}

// ---------------------------------------------------------------------------
// Heights, for the bound on indentation
// ---------------------------------------------------------------------------
/// The nesting height of a value: 0 for a primitive.
pub open spec fn height(v: SpecValue) -> nat
    decreases v,
{
    match v {
        SpecValue::Array(a) => 1 + seq_height(a),
        SpecValue::Object(m) => 1 + entries_height(m),
        _ => 0,
    }
}

pub open spec fn seq_height(a: Seq<SpecValue>) -> nat
    decreases a,
{
    if a.len() == 0 {
        0
    } else {
        let h = height(a.last());
        let r = seq_height(a.drop_last());
        if h > r {
            h
        } else {
            r
        }
    }
}

pub open spec fn entries_height(m: Seq<(Seq<char>, SpecValue)>) -> nat
    decreases m,
{
    if m.len() == 0 {
        0
    } else {
        let h = height(m.last().1);
        let r = entries_height(m.drop_last());
        if h > r {
            h
        } else {
            r
        }
    }
}

pub proof fn lemma_seq_height(a: Seq<SpecValue>)
    ensures
        forall|i: int| 0 <= i < a.len() ==> height(#[trigger] a[i]) <= seq_height(a),
    decreases a.len(),
{
    if a.len() > 0 {
        lemma_seq_height(a.drop_last());
        assert forall|i: int| 0 <= i < a.len() implies height(#[trigger] a[i]) <= seq_height(a) by {
            if i < a.len() - 1 {
                assert(a.drop_last()[i] == a[i]);
            }
        }
    }
}

pub proof fn lemma_entries_height(m: Seq<(Seq<char>, SpecValue)>)
    ensures
        forall|i: int| 0 <= i < m.len() ==> height(#[trigger] m[i].1) <= entries_height(m),
    decreases m.len(),
{
    if m.len() > 0 {
        lemma_entries_height(m.drop_last());
        assert forall|i: int| 0 <= i < m.len() implies height(#[trigger] m[i].1) <= entries_height(
            m,
        ) by {
            if i < m.len() - 1 {
                assert(m.drop_last()[i] == m[i]);
            }
        }
    }
}

// ---------------------------------------------------------------------------
// Strings and keys
// ---------------------------------------------------------------------------
/// The escape of one character inside a quoted string or key.
pub open spec fn escape_char(c: char) -> Seq<char> {
    if c == '\\' {
        seq!['\\', '\\']
    } else if c == '"' {
        seq!['\\', '"']
    } else if c == '\n' {
        seq!['\\', 'n']
    } else if c == '\r' {
        seq!['\\', 'r']
    } else if c == '\t' {
        seq!['\\', 't']
    } else if c == ';' {
        seq!['\\', ';']
    } else {
        seq![c]
    }
}

/// Backslash, quote, line feed, carriage return, tab and semicolon escaped.
pub open spec fn escape(s: Seq<char>) -> Seq<char>
    decreases s.len(),
{
    if s.len() == 0 {
        Seq::empty()
    } else {
        escape(s.drop_last()) + escape_char(s.last())
    }
}

pub open spec fn quoted(s: Seq<char>) -> Seq<char> {
    seq!['"'] + escape(s) + seq!['"']
}

/// Bytes that a value cannot hold unquoted: space, tab, line feed, carriage
/// return, `:`, `"`, `\`, `;`, `@`, `#`, `{`, `[`, `]`, `}`.
pub open spec fn value_unsafe_byte(b: u8) -> bool {
    b == 0x20 || b == 0x09 || b == 0x0A || b == 0x0D || b == 0x3A || b == 0x22 || b == 0x5C || b == 0x3B || b == 0x40 || b
        == 0x23 || b == 0x7B || b == 0x5B || b == 0x5D || b == 0x7D
}

/// Bytes that a key cannot hold unquoted: `:`, `[`, `]`, `{`, `}`, `"`, `\`,
/// space, tab, line feed, carriage return, `;`, `@`, `#`, `,`.
pub open spec fn key_unsafe_byte(b: u8) -> bool {
    b == 0x3A || b == 0x5B || b == 0x5D || b == 0x7B || b == 0x7D || b == 0x22 || b == 0x5C || b
        == 0x20 || b == 0x09 || b == 0x0A || b == 0x0D || b == 0x3B || b == 0x40 || b == 0x23 || b == 0x2C
}

/// The byte that a delimiter character stands for when bytes are compared with
/// it (the low eight bits of its code point).
pub open spec fn delimiter_byte(d: char) -> u8 {
    (d as u32) as u8
}

pub open spec fn is_reserved_word(s: Seq<char>) -> bool {
    s == seq!['t', 'r', 'u', 'e'] || s == seq!['f', 'a', 'l', 's', 'e'] || s == seq![
        'n',
        'u',
        'l',
        'l',
    ]
}

/// How an encoder decides that a string value needs quotes.
pub enum Quoting {
    /// By its first byte (a digit, `+`, `-` or `.` asks for quotes) and by
    /// bytes: an unsafe byte or the low byte of the delimiter asks for quotes.
    Bytes,
    /// By parsing: text that reads as an `i64` or an `f64` asks for quotes; so
    /// do an unsafe character and the delimiter character.
    Parsed,
}

/// How an encoder writes arrays of arrays and objects that it has no short
/// form for.
pub enum Flavor {
    /// Such an item of an expanded array is left out, and such a first field
    /// of a list item is written as a bare `:`.
    Standard,
    /// Such an item is written as an inline array, `null` standing for each
    /// array or object in it, and such a first field as its count and `:`.
    Script,
}

/// The style of an encoder's output: its delimiter, its quoting rule and its
/// flavor.
pub struct Style {
    pub delimiter: char,
    pub quoting: Quoting,
    pub flavor: Flavor,
}

/// The characters that ask for quotes in a value.
pub open spec fn value_unsafe_char(c: char) -> bool {
    c == ' ' || c == '\t' || c == '\n' || c == '\r' || c == ':' || c == '"' || c == '\\' || c == ';' || c == '@' || c == '#'
        || c == '{' || c == '[' || c == ']' || c == '}'
}

/// Whether a string value is written without quotes: it is not empty, not
/// `true`, `false` or `null`, and, by bytes, does not start like a number
/// (digit, `+`, `-`, `.`) and has no unsafe byte nor the delimiter byte; by
/// parsing, reads as no `i64` nor `f64` and has no unsafe character nor the
/// delimiter.
pub open spec fn safe_unquoted(d: Style, s: Seq<char>) -> bool {
    match d.quoting {
        Quoting::Bytes => {
            let b = encode_utf8(s);
            &&& b.len() > 0
            &&& !is_reserved_word(s)
            &&& !(0x30 <= b[0] <= 0x39 || b[0] == 0x2B || b[0] == 0x2D || b[0] == 0x2E)
            &&& forall|i: int|
                0 <= i < b.len() ==> !value_unsafe_byte(#[trigger] b[i]) && b[i] != delimiter_byte(
                    d.delimiter,
                )
        },
        Quoting::Parsed => {
            &&& s.len() > 0
            &&& !is_reserved_word(s)
            &&& !i64_literal(s)
            &&& !float_literal(s)
            &&& forall|i: int|
                0 <= i < s.len() ==> !value_unsafe_char(#[trigger] s[i]) && s[i] != d.delimiter
        },
    }
}

/// Whether a key is written without quotes: it is not empty, does not start
/// with `#`, and none of its bytes is unsafe for a key.
pub open spec fn valid_unquoted_key(k: Seq<char>) -> bool {
    let b = encode_utf8(k);
    &&& b.len() > 0
    &&& b[0] != 0x23
    &&& forall|i: int| 0 <= i < b.len() ==> !key_unsafe_byte(#[trigger] b[i])
}

pub open spec fn key_text(k: Seq<char>) -> Seq<char> {
    if valid_unquoted_key(k) {
        k
    } else {
        quoted(k)
    }
}

pub open spec fn string_text(d: Style, s: Seq<char>) -> Seq<char> {
    if safe_unquoted(d, s) {
        s
    } else {
        quoted(s)
    }
}

/// The text of a primitive; a float is written as the text it holds.
pub open spec fn primitive_text(d: Style, v: SpecValue) -> Seq<char> {
    match v {
        SpecValue::Null => seq!['n', 'u', 'l', 'l'],
        SpecValue::Bool(b) => if b {
            seq!['t', 'r', 'u', 'e']
        } else {
            seq!['f', 'a', 'l', 's', 'e']
        },
        SpecValue::Integer(n) => int_text(n as int),
        SpecValue::Float(t) => t,
        SpecValue::Str(s) => string_text(d, s),
        _ => Seq::empty(),
    }
}

pub open spec fn all_primitive(a: Seq<SpecValue>) -> bool {
    forall|i: int| 0 <= i < a.len() ==> (#[trigger] a[i]).is_primitive()
}

/// Primitives separated by the delimiter and a space.
pub open spec fn items_text(d: Style, a: Seq<SpecValue>) -> Seq<char>
    decreases a.len(),
{
    if a.len() == 0 {
        Seq::empty()
    } else if a.len() == 1 {
        primitive_text(d, a[0])
    } else {
        items_text(d, a.drop_last()) + seq![d.delimiter, ' '] + primitive_text(d, a.last())
    }
}

/// An item written inline where it may be no primitive: `null` for an array
/// or an object.
pub open spec fn loose_text(d: Style, v: SpecValue) -> Seq<char> {
    if v.is_primitive() {
        primitive_text(d, v)
    } else {
        seq!['n', 'u', 'l', 'l']
    }
}

/// Items written inline, separated by the delimiter and a space, `null`
/// standing for an array or an object.
pub open spec fn loose_items_text(d: Style, a: Seq<SpecValue>) -> Seq<char>
    decreases a.len(),
{
    if a.len() == 0 {
        Seq::empty()
    } else if a.len() == 1 {
        loose_text(d, a[0])
    } else {
        loose_items_text(d, a.drop_last()) + seq![d.delimiter, ' '] + loose_text(d, a.last())
    }
}

/// `n` spaces.
pub open spec fn spaces(n: nat) -> Seq<char> {
    Seq::new(n, |i: int| ' ')
}

pub open spec fn indent_text(ind: nat, depth: nat) -> Seq<char> {
    spaces(ind * depth)
}

/// The header of an array: optional key, then `[` length `]`.
pub open spec fn count_text(n: nat) -> Seq<char> {
    seq!['['] + int_text(n as int) + seq![']']
}

pub open spec fn opt_key_text(key: Option<Seq<char>>) -> Seq<char> {
    match key {
        Some(k) => key_text(k),
        None => Seq::empty(),
    }
}

// ---------------------------------------------------------------------------
// Tabular arrays
// ---------------------------------------------------------------------------
/// The keys of an object.
pub open spec fn keys_of(m: Seq<(Seq<char>, SpecValue)>) -> Seq<Seq<char>> {
    Seq::new(m.len(), |i: int| m[i].0)
}

/// Whether an item has exactly the fields `fields`, each holding a primitive.
pub open spec fn matches_fields(item: SpecValue, fields: Seq<Seq<char>>) -> bool {
    match item {
        SpecValue::Object(o) => o.len() == fields.len() && forall|j: int|
            0 <= j < fields.len() ==> (match map_get(o, #[trigger] fields[j]) {
                Some(v) => v.is_primitive(),
                None => false,
            }),
        _ => false,
    }
}

/// The fields of a tabular array: the first item is a non-empty object of
/// primitives, and every later item is an object with as many entries, holding
/// a primitive under each of the first item's keys.
pub open spec fn tabular_fields(a: Seq<SpecValue>) -> Option<Seq<Seq<char>>> {
    if a.len() == 0 {
        None
    } else {
        match a[0] {
            SpecValue::Object(first) => if first.len() > 0 && (forall|j: int|
                0 <= j < first.len() ==> (#[trigger] first[j]).1.is_primitive()) && (forall|i: int|
                1 <= i < a.len() ==> matches_fields(#[trigger] a[i], keys_of(first))) {
                Some(keys_of(first))
            } else {
                None
            },
            _ => None,
        }
    }
}

/// An array of items that are not all primitives is written as a table
/// exactly where its first item is an object with entries, all of them
/// primitives, and every other item is an object with as many entries, one
/// for each key of the first, each a primitive; the table's header then lists
/// the first item's keys in their order, and each row lists the item's values
/// in that order.  Otherwise its items are written as a list.
pub proof fn lemma_tabular_choice(ind: nat, d: Style, key: Option<Seq<char>>, a: Seq<SpecValue>, depth: nat)
    requires
        a.len() > 0,
        !all_primitive(a),
    ensures
        tabular_fields(a) is Some <==> (a[0] is Object && a[0]->Object_0.len() > 0 && (forall|j: int|
            0 <= j < a[0]->Object_0.len() ==> (#[trigger] a[0]->Object_0[j]).1.is_primitive()) && (
        forall|i: int| 1 <= i < a.len() ==> matches_fields(#[trigger] a[i], keys_of(a[0]->Object_0)))),
        tabular_fields(a) matches Some(fs) ==> fs == keys_of(a[0]->Object_0) && array_text(
            ind,
            d,
            key,
            a,
            depth,
        ) == indent_text(ind, depth) + opt_key_text(key) + count_text(a.len()) + seq!['{']
            + fields_text(d, fs) + seq!['}', ':'] + rows_text(ind, d, fs, a, depth),
        tabular_fields(a) is None ==> array_text(ind, d, key, a, depth) == indent_text(ind, depth)
            + opt_key_text(key) + count_text(a.len()) + seq![':'] + items_expanded_text(
            ind,
            d,
            a,
            depth,
        ),
{
}

/// The value of one cell of a tabular row.
pub open spec fn cell_text(d: Style, o: Seq<(Seq<char>, SpecValue)>, f: Seq<char>) -> Seq<char> {
    match map_get(o, f) {
        Some(v) => primitive_text(d, v),
        None => seq!['n', 'u', 'l', 'l'],
    }
}

/// The cells of a tabular row, separated by the delimiter and a space.
pub open spec fn row_text(d: Style, fields: Seq<Seq<char>>, o: Seq<(Seq<char>, SpecValue)>) -> Seq<
    char,
>
    decreases fields.len(),
{
    if fields.len() == 0 {
        Seq::empty()
    } else if fields.len() == 1 {
        cell_text(d, o, fields[0])
    } else {
        row_text(d, fields.drop_last(), o) + seq![d.delimiter, ' '] + cell_text(d, o, fields.last())
    }
}

/// The header fields of a tabular array, separated by the delimiter alone.
pub open spec fn fields_text(d: Style, fields: Seq<Seq<char>>) -> Seq<char>
    decreases fields.len(),
{
    if fields.len() == 0 {
        Seq::empty()
    } else if fields.len() == 1 {
        key_text(fields[0])
    } else {
        fields_text(d, fields.drop_last()) + seq![d.delimiter] + key_text(fields.last())
    }
}

/// The rows of a tabular array, each on a new line one level deeper.
pub open spec fn rows_text(ind: nat, d: Style, fields: Seq<Seq<char>>, a: Seq<SpecValue>, depth: nat) -> Seq<
    char,
>
    decreases a.len(),
{
    if a.len() == 0 {
        Seq::empty()
    } else {
        rows_text(ind, d, fields, a.drop_last(), depth) + match a.last() {
            SpecValue::Object(o) => seq!['\n'] + indent_text(ind, depth + 1) + row_text(
                d,
                fields,
                o,
            ),
            _ => Seq::empty(),
        }
    }
}

// ---------------------------------------------------------------------------
// Objects, arrays and list items
// ---------------------------------------------------------------------------
/// The entries of an object at `depth`, one per line.
pub open spec fn object_text(ind: nat, d: Style, m: Seq<(Seq<char>, SpecValue)>, depth: nat) -> Seq<
    char,
>
    decreases m, 0int,
{
    if m.len() == 0 {
        Seq::empty()
    } else if m.len() == 1 {
        entry_text(ind, d, m.last().0, m.last().1, depth)
    } else {
        object_text(ind, d, m.drop_last(), depth) + seq!['\n'] + entry_text(
            ind,
            d,
            m.last().0,
            m.last().1,
            depth,
        )
    }
}

/// One entry of an object.
pub open spec fn entry_text(ind: nat, d: Style, k: Seq<char>, v: SpecValue, depth: nat) -> Seq<char>
    decreases v, 0int,
{
    match v {
        SpecValue::Object(inner) => if inner.len() == 0 {
            indent_text(ind, depth) + key_text(k) + seq![':', ' ', '{', '}']
        } else {
            indent_text(ind, depth) + key_text(k) + seq![':', '\n'] + object_text(
                ind,
                d,
                inner,
                depth + 1,
            )
        },
        SpecValue::Array(a) => if a.len() == 0 {
            indent_text(ind, depth) + key_text(k) + seq![':', ' ', '[', ']']
        } else {
            array_text(ind, d, Some(k), a, depth)
        },
        _ => indent_text(ind, depth) + key_text(k) + seq![':', ' '] + primitive_text(d, v),
    }
}

/// An array at `depth`, under an optional key: empty, inline, tabular or
/// expanded into list items.
pub open spec fn array_text(
    ind: nat,
    d: Style,
    key: Option<Seq<char>>,
    a: Seq<SpecValue>,
    depth: nat,
) -> Seq<char>
    decreases a, 1int,
{
    if a.len() == 0 {
        indent_text(ind, depth) + match key {
            Some(k) => key_text(k) + seq![':', ' ', '[', ']'],
            None => seq!['[', ']'],
        }
    } else if all_primitive(a) {
        indent_text(ind, depth) + opt_key_text(key) + count_text(a.len()) + seq![':', ' ']
            + items_text(d, a)
    } else {
        match tabular_fields(a) {
            Some(fields) => indent_text(ind, depth) + opt_key_text(key) + count_text(a.len())
                + seq!['{'] + fields_text(d, fields) + seq!['}', ':'] + rows_text(
                ind,
                d,
                fields,
                a,
                depth,
            ),
            None => indent_text(ind, depth) + opt_key_text(key) + count_text(a.len()) + seq![':']
                + items_expanded_text(ind, d, a, depth),
        }
    }
}

/// The items of an expanded array, each on a new line.
pub open spec fn items_expanded_text(ind: nat, d: Style, a: Seq<SpecValue>, depth: nat) -> Seq<char>
    decreases a, 0int,
{
    if a.len() == 0 {
        Seq::empty()
    } else {
        items_expanded_text(ind, d, a.drop_last(), depth) + seq!['\n'] + item_text(
            ind,
            d,
            a.last(),
            depth,
        )
    }
}

/// One item of an expanded array (nothing for an array of non-primitives).
pub open spec fn item_text(ind: nat, d: Style, v: SpecValue, depth: nat) -> Seq<char>
    decreases v, 0int,
{
    match v {
        SpecValue::Object(o) => if o.len() == 0 {
            indent_text(ind, depth + 1) + seq!['-', ' ', '{', '}']
        } else {
            list_item_text(ind, d, o, depth + 1)
        },
        SpecValue::Array(inner) => if inner.len() == 0 {
            indent_text(ind, depth + 1) + seq!['-', ' ', '[', ']']
        } else if all_primitive(inner) {
            indent_text(ind, depth + 1) + seq!['-', ' '] + count_text(inner.len()) + seq![':', ' ']
                + items_text(d, inner)
        } else {
            match d.flavor {
                Flavor::Standard => Seq::empty(),
                Flavor::Script => indent_text(ind, depth + 1) + seq!['-', ' '] + count_text(
                    inner.len(),
                ) + seq![':', ' '] + loose_items_text(d, inner),
            }
        },
        _ => indent_text(ind, depth + 1) + seq!['-', ' '] + primitive_text(d, v),
    }
}

/// An object written as a list item: its first entry on the `- ` line, the
/// others one level deeper.
pub open spec fn list_item_text(ind: nat, d: Style, m: Seq<(Seq<char>, SpecValue)>, depth: nat) -> Seq<
    char,
>
    decreases m, 1int,
{
    if m.len() == 0 {
        indent_text(ind, depth) + seq!['-', ' ']
    } else {
        indent_text(ind, depth) + seq!['-', ' '] + key_text(m[0].0) + first_field_text(
            ind,
            d,
            m[0].1,
            depth,
        ) + continuation_text(ind, d, m.drop_first(), depth)
    }
}

/// What follows the key of the first entry of a list item.
pub open spec fn first_field_text(ind: nat, d: Style, v: SpecValue, depth: nat) -> Seq<char>
    decreases v, 0int,
{
    match v {
        SpecValue::Array(a) => if a.len() == 0 {
            seq![':', ' ', '[', ']']
        } else if all_primitive(a) {
            count_text(a.len()) + seq![':', ' '] + items_text(d, a)
        } else {
            match d.flavor {
                Flavor::Standard => seq![':'],
                Flavor::Script => count_text(a.len()) + seq![':'],
            }
        },
        SpecValue::Object(inner) => if inner.len() == 0 {
            seq![':', ' ', '{', '}']
        } else {
            seq![':', '\n'] + object_text(ind, d, inner, depth + 2)
        },
        _ => seq![':', ' '] + primitive_text(d, v),
    }
}

/// The entries of a list item after the first, each on a new line.
pub open spec fn continuation_text(ind: nat, d: Style, m: Seq<(Seq<char>, SpecValue)>, depth: nat) -> Seq<
    char,
>
    decreases m, 0int,
{
    if m.len() == 0 {
        Seq::empty()
    } else {
        continuation_text(ind, d, m.drop_last(), depth) + seq!['\n'] + continuation_entry_text(
            ind,
            d,
            m.last().0,
            m.last().1,
            depth,
        )
    }
}

/// One entry of a list item after the first.
pub open spec fn continuation_entry_text(
    ind: nat,
    d: Style,
    k: Seq<char>,
    v: SpecValue,
    depth: nat,
) -> Seq<char>
    decreases v, 0int,
{
    match v {
        SpecValue::Array(a) => if a.len() == 0 {
            indent_text(ind, depth + 1) + key_text(k) + seq![':', ' ', '[', ']']
        } else {
            array_text(ind, d, Some(k), a, depth + 1)
        },
        SpecValue::Object(inner) => if inner.len() == 0 {
            indent_text(ind, depth + 1) + key_text(k) + seq![':', ' ', '{', '}']
        } else {
            indent_text(ind, depth + 1) + key_text(k) + seq![':', '\n'] + object_text(
                ind,
                d,
                inner,
                depth + 2,
            )
        },
        _ => indent_text(ind, depth + 1) + key_text(k) + seq![':', ' '] + primitive_text(d, v),
    }
}

/// A value at `depth` (objects and arrays laid out over lines).
pub open spec fn value_text(ind: nat, d: Style, v: SpecValue, depth: nat) -> Seq<char> {
    match v {
        SpecValue::Object(m) => object_text(ind, d, m, depth),
        SpecValue::Array(a) => array_text(ind, d, None, a, depth),
        _ => primitive_text(d, v),
    }
}

/// A whole document: `{}` for an empty object, `[]` for an empty array.
pub open spec fn document_text(ind: nat, d: Style, v: SpecValue) -> Seq<char> {
    match v {
        SpecValue::Object(m) => if m.len() == 0 {
            seq!['{', '}']
        } else {
            value_text(ind, d, v, 0)
        },
        SpecValue::Array(a) => if a.len() == 0 {
            seq!['[', ']']
        } else {
            value_text(ind, d, v, 0)
        },
        _ => value_text(ind, d, v, 0),
    }
}

} // verus!
