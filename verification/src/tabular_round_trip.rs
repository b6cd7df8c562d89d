//! What the decoder reads back of an array of objects written as a table.
use vstd::prelude::*;
use crate::array_round_trip::{
    array_key_ok, inline_array_reads_back, item_reads_back, lemma_delimited_items,
    lemma_items_chars, lemma_items_text_from, lemma_parse_count, lemma_split_plain,
    plain_item_char,
};
use crate::decoder::skipped;
use crate::document_round_trip::{
    clean_line, clean_lines, joined, key_reads_back, key_unsafe_char, line_text, lemma_find_first,
    lemma_find_none, lemma_joined_concat, lemma_key_text, lemma_primitive_start,
    lemma_trim_spaces, lemma_trimmed_ends, lemma_unquoted_key_chars, lines_shape,
};
use crate::layout::{array_lines, tabular_rows, LineModel};
use crate::format::{
    all_primitive, array_text, cell_text, count_text, fields_text, items_text, key_text, keys_of,
    matches_fields, opt_key_text, primitive_text, row_text, rows_text, spaces, tabular_fields,
    valid_unquoted_key, Style,
};
use crate::inline::{try_header_of, trimmed_parts, DecodeError, HeaderModel};
use crate::layout::row_entries;
use crate::inline::delimited_of;
use crate::round_trip::{lemma_digits_end_all, lemma_nat_text, lemma_trim_id};
use crate::syntax::{parse_usize, split_bounds, split_scan};
use crate::text::{
    contains_char, find, find_from, int_text, starts_with, is_digit, is_ws, lemma_find_from, nat_text,
    trim,
};
use crate::value::{
    distinct_keys, key_index, lemma_key_index_from, map_get, map_insert, SpecValue,
};

verus! {

// ---------------------------------------------------------------------------
// Tables that read back
// ---------------------------------------------------------------------------
/// The values of an object, in order.
pub open spec fn values_of(o: Seq<(Seq<char>, SpecValue)>) -> Seq<SpecValue> {
    Seq::new(o.len(), |j: int| o[j].1)
}

/// A field name that reads back from a table header: written bare, with no
/// whitespace at its ends and no line feed.
pub open spec fn field_reads_back(f: Seq<char>) -> bool {
    valid_unquoted_key(f) && trim(f) == f && !contains_char(f, '\n')
}

/// An array written as a table that reads back: at most `usize::MAX` objects,
/// each with the keys of the first in the same order, the first with no
/// repeated key and keys that read back as field names, and each object's
/// values reading back as the items of an inline array.
pub open spec fn tabular_reads_back(st: Style, a: Seq<SpecValue>) -> bool {
    &&& st.delimiter == ','
    &&& 0 < a.len() <= usize::MAX
    &&& a[0] is Object
    &&& distinct_keys(a[0]->Object_0)
    &&& forall|j: int|
        0 <= j < a[0]->Object_0.len() ==> field_reads_back(#[trigger] a[0]->Object_0[j].0)
    &&& forall|i: int|
        0 <= i < a.len() ==> (#[trigger] a[i]) is Object && keys_of(a[i]->Object_0) == keys_of(
            a[0]->Object_0,
        ) && inline_array_reads_back(st, values_of(a[i]->Object_0))
}

/// An object with no repeated key finds each key at its own place.
proof fn lemma_key_at(o: Seq<(Seq<char>, SpecValue)>, j: int)
    requires
        distinct_keys(o),
        0 <= j < o.len(),
    ensures
        key_index(o, o[j].0) == j,
        map_get(o, o[j].0) == Some(o[j].1),
{
    lemma_key_index_from(o, o[j].0, 0);
}

/// Objects with the same keys as one with no repeated key have no repeated key.
proof fn lemma_same_keys_distinct(o: Seq<(Seq<char>, SpecValue)>, first: Seq<(Seq<char>, SpecValue)>)
    requires
        distinct_keys(first),
        keys_of(o) == keys_of(first),
    ensures
        distinct_keys(o),
{
    assert(o.len() == first.len()) by {
        assert(keys_of(o).len() == o.len());
        assert(keys_of(first).len() == first.len());
        assert(keys_of(o).len() == keys_of(first).len());
    }
    assert forall|i: int, j: int| 0 <= i < j < o.len() implies o[i].0 != o[j].0 by {
        assert(keys_of(o)[i] == keys_of(first)[i]);
        assert(keys_of(o)[j] == keys_of(first)[j]);
        assert(keys_of(o)[i] == o[i].0 && keys_of(first)[i] == first[i].0);
        assert(keys_of(o)[j] == o[j].0 && keys_of(first)[j] == first[j].0);
    }
}

/// A table that reads back is written as a table with the first object's
/// keys as fields.
pub proof fn lemma_tabular_fields(st: Style, a: Seq<SpecValue>)
    requires
        tabular_reads_back(st, a),
    ensures
        tabular_fields(a) == Some(keys_of(a[0]->Object_0)),
        !all_primitive(a),
{
    let first = a[0]->Object_0;
    assert(a[0] is Object);
    assert(inline_array_reads_back(st, values_of(first)));
    assert forall|j: int| 0 <= j < first.len() implies (#[trigger] first[j]).1.is_primitive() by {
        assert(values_of(first)[j] == first[j].1);
        assert(item_reads_back(st, values_of(first)[j]));
    }
    assert forall|i: int| 1 <= i < a.len() implies matches_fields(#[trigger] a[i], keys_of(first)) by {
        let o = a[i]->Object_0;
        assert(a[i] is Object && keys_of(o) == keys_of(first));
        assert(inline_array_reads_back(st, values_of(o)));
        lemma_same_keys_distinct(o, first);
        assert(o.len() == keys_of(o).len());
        assert forall|j: int| 0 <= j < keys_of(first).len() implies (match map_get(
            o,
            #[trigger] keys_of(first)[j],
        ) {
            Some(v) => v.is_primitive(),
            None => false,
        }) by {
            assert(keys_of(first)[j] == keys_of(o)[j]);
            lemma_key_at(o, j);
            assert(values_of(o)[j] == o[j].1);
            assert(item_reads_back(st, values_of(o)[j]));
        }
    }
    assert(!a[0].is_primitive());
}

// ---------------------------------------------------------------------------
// Rows
// ---------------------------------------------------------------------------
/// A row of an object whose keys are the fields is the object's values
/// written as items.
pub proof fn lemma_row_text(st: Style, o: Seq<(Seq<char>, SpecValue)>, k: int)
    requires
        distinct_keys(o),
        0 <= k <= o.len(),
    ensures
        row_text(st, keys_of(o).take(k), o) == items_text(st, values_of(o).take(k)),
    decreases k,
{
    let f = keys_of(o).take(k);
    let v = values_of(o).take(k);
    if k == 1 {
        lemma_key_at(o, 0);
        assert(f[0] == o[0].0);
        assert(v[0] == o[0].1);
    } else if k > 1 {
        lemma_row_text(st, o, k - 1);
        assert(f.drop_last() =~= keys_of(o).take(k - 1));
        assert(v.drop_last() =~= values_of(o).take(k - 1));
        lemma_key_at(o, k - 1);
        assert(f.last() == o[k - 1].0);
        assert(v.last() == o[k - 1].1);
    } else {
        assert(v =~= Seq::<SpecValue>::empty());
    }
}

/// Reading a row's values back under the fields gives the object back.
pub proof fn lemma_row_entries(o: Seq<(Seq<char>, SpecValue)>, k: nat)
    requires
        distinct_keys(o),
        k <= o.len(),
    ensures
        row_entries(keys_of(o), values_of(o), k) == o.take(k as int),
    decreases k,
{
    if k > 0 {
        lemma_row_entries(o, (k - 1) as nat);
        let p = o.take(k - 1);
        lemma_key_index_from(p, o[k - 1].0, 0);
        if key_index(p, o[k - 1].0) != -1 {
            let r = key_index(p, o[k - 1].0);
            assert(p[r] == o[r]);
        }
        assert(keys_of(o)[k - 1] == o[k - 1].0);
        assert(values_of(o)[k - 1] == o[k - 1].1);
        assert(p.push((o[k - 1].0, o[k - 1].1)) =~= o.take(k as int));
    } else {
        assert(o.take(0) =~= Seq::<(Seq<char>, SpecValue)>::empty());
    }
}

// ---------------------------------------------------------------------------
// The header
// ---------------------------------------------------------------------------
/// Fields written from the first on, separated by commas.
pub open spec fn fields_from(fs: Seq<Seq<char>>) -> Seq<char>
    decreases fs.len(),
{
    if fs.len() == 0 {
        Seq::empty()
    } else if fs.len() == 1 {
        fs[0]
    } else {
        fs[0] + seq![','] + fields_from(fs.drop_first())
    }
}

proof fn lemma_fields_from_last(fs: Seq<Seq<char>>)
    requires
        fs.len() >= 2,
    ensures
        fields_from(fs) == fields_from(fs.drop_last()) + seq![','] + fs.last(),
    decreases fs.len(),
{
    let r = fs.drop_first();
    let p = fs.drop_last();
    assert(fields_from(fs) == fs[0] + seq![','] + fields_from(r));
    if fs.len() == 2 {
        assert(r.len() == 1 && p.len() == 1);
        assert(p[0] == fs[0] && r[0] == fs.last());
        assert(fields_from(r) == r[0]);
        assert(fields_from(p) == p[0]);
    } else {
        lemma_fields_from_last(r);
        assert(r.drop_last() =~= p.drop_first());
        assert(p[0] == fs[0]);
        assert(r.last() == fs.last());
        assert(fields_from(p) == p[0] + seq![','] + fields_from(p.drop_first()));
        assert(fields_from(fs) =~= fields_from(p) + seq![','] + fs.last());
    }
}

/// Bare fields are written the same from either end.
proof fn lemma_fields_text_from(st: Style, fs: Seq<Seq<char>>)
    requires
        st.delimiter == ',',
        forall|j: int| 0 <= j < fs.len() ==> valid_unquoted_key(#[trigger] fs[j]),
    ensures
        fields_text(st, fs) == fields_from(fs),
    decreases fs.len(),
{
    if fs.len() >= 1 {
        assert(valid_unquoted_key(fs.last()));
        assert(valid_unquoted_key(fs[0]));
    }
    if fs.len() >= 2 {
        assert forall|j: int| 0 <= j < fs.drop_last().len() implies valid_unquoted_key(
            #[trigger] fs.drop_last()[j],
        ) by {
            assert(fs.drop_last()[j] == fs[j]);
        }
        lemma_fields_text_from(st, fs.drop_last());
        lemma_fields_from_last(fs);
    }
}

/// A field name is made of characters that can stand in an item outside
/// quotes, and of no colon and no line feed.
proof fn lemma_field_chars(f: Seq<char>)
    requires
        field_reads_back(f),
    ensures
        f.len() > 0,
        forall|j: int|
            0 <= j < f.len() ==> plain_item_char(#[trigger] f[j]) && f[j] != ':' && f[j] != '\n',
{
    lemma_unquoted_key_chars(f);
    lemma_find_from(f, '\n', 0);
    assert forall|j: int| 0 <= j < f.len() implies plain_item_char(#[trigger] f[j]) && f[j] != ':'
        && f[j] != '\n' by {
        assert(!key_unsafe_char(f[j]));
    }
}

/// Splitting bare fields written with commas gives one part per field,
/// which is the field.
proof fn lemma_split_fields(s: Seq<char>, i: int, parts: Seq<(int, int)>, fs: Seq<Seq<char>>)
    requires
        fs.len() > 0,
        forall|j: int| 0 <= j < fs.len() ==> field_reads_back(#[trigger] fs[j]),
        0 <= i <= s.len(),
        s.subrange(i, s.len() as int) == fields_from(fs),
    ensures
        ({
            let r = split_scan(s, ',', i, i, false, 0, 0, parts);
            &&& r.len() == parts.len() + fs.len()
            &&& r.subrange(0, parts.len() as int) == parts
            &&& forall|k: int|
                0 <= k < fs.len() ==> 0 <= #[trigger] r[parts.len() + k].0 <= r[parts.len() + k].1
                    <= s.len() && s.subrange(r[parts.len() + k].0, r[parts.len() + k].1) == fs[k]
        }),
    decreases fs.len(),
{
    let f = fs[0];
    let n = f.len() as int;
    assert(field_reads_back(f));
    lemma_field_chars(f);
    let rest_text = s.subrange(i, s.len() as int);
    assert(n <= rest_text.len() && rest_text.subrange(0, n) == f) by {
        if fs.len() == 1 {
            assert(rest_text == f);
        } else {
            assert(rest_text == f + seq![','] + fields_from(fs.drop_first()));
        }
        assert(rest_text.subrange(0, n) =~= f);
    }
    assert forall|k: int| i <= k < i + n implies plain_item_char(#[trigger] s[k]) by {
        assert(rest_text[k - i] == s[k]);
        assert(rest_text.subrange(0, n)[k - i] == rest_text[k - i]);
    }
    lemma_split_plain(s, i, i + n, i, parts);
    assert(s.subrange(i, i + n) =~= f) by {
        assert forall|k: int| 0 <= k < n implies s[i + k] == f[k] by {
            assert(rest_text[k] == s[i + k]);
            assert(rest_text.subrange(0, n)[k] == rest_text[k]);
        }
    }
    if fs.len() == 1 {
        assert(i + n == s.len());
        let r = split_scan(s, ',', i, i, false, 0, 0, parts);
        assert(r == parts.push((i, s.len() as int)));
        assert(r.subrange(0, parts.len() as int) =~= parts);
    } else {
        let j = i + n;
        let r2 = fs.drop_first();
        assert(rest_text == f + seq![','] + fields_from(r2));
        assert(s[j] == ',') by {
            assert(rest_text[n] == ',');
        }
        let parts2 = parts.push((i, j));
        assert(split_scan(s, ',', j, i, false, 0, 0, parts) == split_scan(
            s,
            ',',
            j + 1,
            j + 1,
            false,
            0,
            0,
            parts2,
        ));
        assert(s.subrange(j + 1, s.len() as int) =~= fields_from(r2)) by {
            assert forall|k: int| 0 <= k < s.len() - (j + 1) implies s.subrange(
                j + 1,
                s.len() as int,
            )[k] == fields_from(r2)[k] by {
                assert(rest_text[n + 1 + k] == s[j + 1 + k]);
            }
        }
        assert forall|k: int| 0 <= k < r2.len() implies field_reads_back(#[trigger] r2[k]) by {
            assert(r2[k] == fs[k + 1]);
        }
        lemma_split_fields(s, j + 1, parts2, r2);
        let r = split_scan(s, ',', i, i, false, 0, 0, parts);
        assert(r == split_scan(s, ',', j + 1, j + 1, false, 0, 0, parts2));
        assert(r.subrange(0, parts2.len() as int) == parts2);
        assert(r.subrange(0, parts.len() as int) =~= parts) by {
            assert forall|k: int| 0 <= k < parts.len() implies r[k] == parts[k] by {
                assert(r.subrange(0, parts2.len() as int)[k] == parts2[k]);
            }
        }
        assert(r[parts.len() as int] == (i, j)) by {
            assert(r.subrange(0, parts2.len() as int)[parts.len() as int] == parts2[parts.len() as int]);
        }
        assert forall|k: int| 0 <= k < fs.len() implies 0 <= #[trigger] r[parts.len() + k].0
            <= r[parts.len() + k].1 <= s.len() && s.subrange(r[parts.len() + k].0, r[parts.len() + k].1)
            == fs[k] by {
            if k > 0 {
                assert(r[parts.len() + k] == r[parts2.len() + (k - 1)]);
                assert(fs[k] == r2[k - 1]);
            }
        }
    }
}

/// Bare fields written with commas are read back as the fields.
proof fn lemma_trimmed_fields(fs: Seq<Seq<char>>)
    requires
        fs.len() > 0,
        forall|j: int| 0 <= j < fs.len() ==> field_reads_back(#[trigger] fs[j]),
    ensures
        trimmed_parts(fields_from(fs), ',') == fs,
{
    let s = fields_from(fs);
    assert(s.subrange(0, s.len() as int) =~= s);
    lemma_split_fields(s, 0, Seq::empty(), fs);
    let b = split_bounds(s, ',');
    assert forall|k: int| 0 <= k < fs.len() implies trimmed_parts(s, ',')[k] == fs[k] by {
        assert(b[0 + k] == b[k]);
        assert(field_reads_back(fs[k]));
    }
    assert(trimmed_parts(s, ',') =~= fs);
}

/// The characters of bare fields written with commas: no colon, no closing
/// brace, no line feed.
proof fn lemma_fields_chars(fs: Seq<Seq<char>>)
    requires
        fs.len() > 0,
        forall|j: int| 0 <= j < fs.len() ==> field_reads_back(#[trigger] fs[j]),
    ensures
        fields_from(fs).len() > 0,
        forall|j: int|
            0 <= j < fields_from(fs).len() ==> fields_from(fs)[j] != ':' && fields_from(fs)[j]
                != '}' && fields_from(fs)[j] != '\n',
    decreases fs.len(),
{
    let f = fs[0];
    assert(field_reads_back(f));
    lemma_field_chars(f);
    if fs.len() > 1 {
        let r = fs.drop_first();
        assert forall|k: int| 0 <= k < r.len() implies field_reads_back(#[trigger] r[k]) by {
            assert(r[k] == fs[k + 1]);
        }
        lemma_fields_chars(r);
        let t = fields_from(fs);
        let u = fields_from(r);
        assert(t == f + seq![','] + u);
        assert forall|j: int| 0 <= j < t.len() implies t[j] != ':' && t[j] != '}' && t[j] != '\n' by {
            if j < f.len() {
                assert(t[j] == f[j]);
                assert(plain_item_char(f[j]));
            } else if j > f.len() {
                assert(t[j] == u[j - f.len() - 1]);
            }
        }
    } else {
        assert forall|j: int| 0 <= j < f.len() implies f[j] != '}' by {
            assert(plain_item_char(f[j]));
        }
    }
}

/// The text of the header line of a table.
pub open spec fn table_header(kt: Seq<char>, st: Style, fs: Seq<Seq<char>>, n: nat) -> Seq<char> {
    kt + count_text(n) + seq!['{'] + fields_text(st, fs) + seq!['}', ':']
}

/// The header line of a table, `key[n]{fields}:`, is an array header with
/// the key (if any), the count, commas and the fields, and no inline items.
pub(crate) proof fn lemma_table_header(
    kt: Seq<char>,
    key: Option<Seq<char>>,
    st: Style,
    fs: Seq<Seq<char>>,
    n: nat,
)
    requires
        st.delimiter == ',',
        0 < n <= usize::MAX,
        fs.len() > 0,
        forall|j: int| 0 <= j < fs.len() ==> field_reads_back(#[trigger] fs[j]),
        key is None ==> kt.len() == 0,
        key is Some ==> kt == key_text(key->0) && key_reads_back(key->0) && array_key_ok(key->0),
    ensures
        try_header_of(table_header(kt, st, fs, n)) == Some(
            HeaderModel { key, length: n, delimiter: ',', fields: Some(fs), inline_values: None },
        ),
{
    let nt = nat_text(n);
    assert forall|j: int| 0 <= j < fs.len() implies valid_unquoted_key(#[trigger] fs[j]) by {
        assert(field_reads_back(fs[j]));
    }
    lemma_fields_text_from(st, fs);
    let ft = fields_from(fs);
    lemma_fields_chars(fs);
    lemma_trimmed_fields(fs);
    lemma_nat_text(n);
    assert(int_text(n as int) == nt);
    let content = table_header(kt, st, fs, n);
    let p = kt.len() as int;
    let q = p + 1 + nt.len();
    let last = q + 3 + ft.len();
    assert(content.len() == last + 1);
    if key is Some {
        let k = key->0;
        lemma_key_text(k);
        lemma_find_from(k, ':', 0);
        if !valid_unquoted_key(k) {
            assert(kt == seq!['"'] + k + seq!['"']);
        }
    }
    assert forall|j: int| 0 <= j < p implies kt[j] != '[' && kt[j] != ':' by {
        if key is Some {
            let k = key->0;
            if valid_unquoted_key(k) {
                assert(!key_unsafe_char(k[j]));
            } else {
                if 0 < j < p - 1 {
                    assert(kt[j] == k[j - 1]);
                }
            }
        }
    }
    assert forall|j: int| 0 <= j < p implies content[j] == kt[j] by {}
    assert(content[p] == '[');
    assert forall|j: int| 0 <= j < nt.len() implies content[p + 1 + j] == nt[j] by {}
    assert(content[q] == ']');
    assert(content[q + 1] == '{');
    assert forall|j: int| 0 <= j < ft.len() implies content[q + 2 + j] == ft[j] by {}
    assert(content[q + 2 + ft.len()] == '}');
    assert(content[last] == ':');
    // the first `[` and the first colon
    lemma_find_first(content, '[', p);
    assert forall|j: int| 0 <= j < last implies content[j] != ':' by {
        if p < j < q {
            assert(is_digit(nt[j - p - 1]));
        }
        if q + 2 <= j < q + 2 + ft.len() {
            assert(content[j] == ft[j - q - 2]);
        }
    }
    lemma_find_first(content, ':', last);
    // the closing bracket and the count
    lemma_find_from(content, ']', p);
    assert forall|j: int| p <= j < q implies content[j] != ']' by {
        if p < j {
            assert(is_digit(nt[j - p - 1]));
        }
    }
    assert(find_from(content, ']', p) == q);
    assert(content.subrange(p + 1, q) =~= nt);
    assert(is_digit(nt.last()));
    lemma_parse_count(n);
    // the fields
    let after = content.subrange(q + 1, content.len() as int);
    assert(after[0] == '{');
    assert forall|j: int| 0 <= j < ft.len() + 1 implies after[j] != '}' by {
        if j > 0 {
            assert(after[j] == ft[j - 1]);
        }
    }
    assert(after[ft.len() + 1int] == '}');
    lemma_find_first(after, '}', ft.len() + 1int);
    assert(after.subrange(1, ft.len() + 1int) =~= ft);
    // the colon that ends the header
    assert(find_from(content, ':', last) == last);
    assert(content.subrange(last + 1, content.len() as int) =~= Seq::<char>::empty());
    assert(trim(Seq::<char>::empty()) =~= Seq::<char>::empty());
    // the key
    if key is Some {
        let k = key->0;
        let raw = content.subrange(0, p);
        assert(raw =~= kt);
        if valid_unquoted_key(k) {
            assert(!key_unsafe_char(k[0]));
        } else {
            assert(kt[0] == '"' && kt.last() == '"');
            lemma_trim_id(kt);
            assert(kt.subrange(1, kt.len() - 1) =~= k);
        }
    } else {
        assert(p == 0);
    }
}

// ---------------------------------------------------------------------------
// The lines of a table
// ---------------------------------------------------------------------------
/// The line of one row of a table.
pub open spec fn row_line(st: Style, fs: Seq<Seq<char>>, x: SpecValue, depth: nat) -> LineModel {
    LineModel {
        depth,
        content: match x {
            SpecValue::Object(o) => row_text(st, fs, o),
            _ => Seq::empty(),
        },
    }
}

/// The lines of the rows of a table.
pub open spec fn row_lines(st: Style, fs: Seq<Seq<char>>, a: Seq<SpecValue>, depth: nat) -> Seq<
    LineModel,
> {
    Seq::new(a.len(), |i: int| row_line(st, fs, a[i], depth))
}

/// The lines of a table: its header, then its rows one level deeper.
pub open spec fn table_lines(
    kt: Seq<char>,
    st: Style,
    fs: Seq<Seq<char>>,
    a: Seq<SpecValue>,
    depth: nat,
) -> Seq<LineModel> {
    seq![LineModel { depth, content: table_header(kt, st, fs, a.len()) }] + row_lines(
        st,
        fs,
        a,
        depth + 1,
    )
}

/// The header and rows of a table are written as its lines joined.
proof fn lemma_rows_joined(
    kt: Seq<char>,
    st: Style,
    fs: Seq<Seq<char>>,
    a: Seq<SpecValue>,
    depth: nat,
    k: int,
)
    requires
        0 <= k <= a.len(),
        forall|i: int| 0 <= i < a.len() ==> (#[trigger] a[i]) is Object,
    ensures
        spaces(depth) + table_header(kt, st, fs, a.len()) + rows_text(1, st, fs, a.take(k), depth)
            == joined(
            seq![LineModel { depth, content: table_header(kt, st, fs, a.len()) }] + row_lines(
                st,
                fs,
                a.take(k),
                depth + 1,
            ),
        ),
    decreases k,
{
    let h = seq![LineModel { depth, content: table_header(kt, st, fs, a.len()) }];
    if k == 0 {
        assert(a.take(0).len() == 0);
        assert(row_lines(st, fs, a.take(0), depth + 1) =~= Seq::<LineModel>::empty());
        assert(h + row_lines(st, fs, a.take(0), depth + 1) =~= h);
        assert(spaces(depth) + table_header(kt, st, fs, a.len()) + rows_text(
            1,
            st,
            fs,
            a.take(0),
            depth,
        ) =~= spaces(depth) + table_header(kt, st, fs, a.len()));
    } else {
        lemma_rows_joined(kt, st, fs, a, depth, k - 1);
        let prev = h + row_lines(st, fs, a.take(k - 1), depth + 1);
        let x = a[k - 1];
        assert(x is Object);
        let row = seq![row_line(st, fs, x, depth + 1)];
        assert(h + row_lines(st, fs, a.take(k), depth + 1) =~= prev + row);
        lemma_joined_concat(prev, row);
        assert(a.take(k).drop_last() =~= a.take(k - 1));
        assert(a.take(k).last() == x);
        assert(1 * (depth + 1) == depth + 1);
        assert(joined(row) == line_text(row_line(st, fs, x, depth + 1)));
    }
}

/// A table is written as its lines joined.
pub(crate) proof fn lemma_table_text(
    key: Option<Seq<char>>,
    st: Style,
    a: Seq<SpecValue>,
    depth: nat,
)
    requires
        tabular_reads_back(st, a),
    ensures
        array_text(1, st, key, a, depth) == joined(
            table_lines(opt_key_text(key), st, keys_of(a[0]->Object_0), a, depth),
        ),
{
    lemma_tabular_fields(st, a);
    let fs = keys_of(a[0]->Object_0);
    assert forall|i: int| 0 <= i < a.len() implies (#[trigger] a[i]) is Object by {}
    lemma_rows_joined(opt_key_text(key), st, fs, a, depth, a.len() as int);
    assert(a.take(a.len() as int) =~= a);
    assert(1 * depth == depth);
    assert(array_text(1, st, key, a, depth) =~= spaces(depth) + table_header(
        opt_key_text(key),
        st,
        fs,
        a.len(),
    ) + rows_text(1, st, fs, a, depth));
}

/// The header line of a table is clean, no list item, starts with no `{`
/// and holds a colon.
pub(crate) proof fn lemma_table_header_line(
    kt: Seq<char>,
    key: Option<Seq<char>>,
    st: Style,
    fs: Seq<Seq<char>>,
    n: nat,
)
    requires
        st.delimiter == ',',
        0 < n <= usize::MAX,
        fs.len() > 0,
        forall|j: int| 0 <= j < fs.len() ==> field_reads_back(#[trigger] fs[j]),
        key is None ==> kt.len() == 0,
        key is Some ==> kt == key_text(key->0) && key_reads_back(key->0) && array_key_ok(key->0),
    ensures
        clean_line(LineModel { depth: 0, content: table_header(kt, st, fs, n) }),
        !starts_with(table_header(kt, st, fs, n), seq!['-', ' ']),
        table_header(kt, st, fs, n)[0] != '{',
        contains_char(table_header(kt, st, fs, n), ':'),
{
    let nt = nat_text(n);
    assert forall|j: int| 0 <= j < fs.len() implies valid_unquoted_key(#[trigger] fs[j]) by {
        assert(field_reads_back(fs[j]));
    }
    lemma_fields_text_from(st, fs);
    let ft = fields_from(fs);
    lemma_fields_chars(fs);
    lemma_nat_text(n);
    assert(int_text(n as int) == nt);
    let content = table_header(kt, st, fs, n);
    let p = kt.len() as int;
    let q = p + 1 + nt.len();
    let last = q + 3 + ft.len();
    assert(content.len() == last + 1);
    if key is Some {
        let k = key->0;
        lemma_key_text(k);
        lemma_find_from(k, ':', 0);
        if !valid_unquoted_key(k) {
            assert(kt == seq!['"'] + k + seq!['"']);
        }
    }
    assert forall|j: int| 0 <= j < p implies kt[j] != ':' && kt[j] != '\n' by {
        if key is Some {
            let k = key->0;
            if valid_unquoted_key(k) {
                assert(!key_unsafe_char(k[j]));
            } else {
                if 0 < j < p - 1 {
                    assert(kt[j] == k[j - 1]);
                }
            }
        }
    }
    assert forall|j: int| 0 <= j < p implies content[j] == kt[j] by {}
    assert forall|j: int| 0 <= j < nt.len() implies content[p + 1 + j] == nt[j] by {}
    assert forall|j: int| 0 <= j < ft.len() implies content[q + 2 + j] == ft[j] by {}
    assert forall|j: int| 0 <= j < last implies content[j] != ':' && content[j] != '\n' by {
        if p < j < q {
            assert(is_digit(nt[j - p - 1]));
        }
        if q + 2 <= j < q + 2 + ft.len() {
            assert(content[j] == ft[j - q - 2]);
        }
    }
    assert(content[last] == ':');
    lemma_find_none(content, '\n');
    lemma_find_from(content, ':', 0);
    if key is Some {
        let k = key->0;
        if valid_unquoted_key(k) {
            assert(kt == k);
            assert(!key_unsafe_char(k[0]));
            if p > 1 {
                assert(!key_unsafe_char(k[1]));
                assert(content[1] == k[1]);
            }
            assert(content[0] != '-' || content[1] != ' ');
        } else {
            assert(content[0] == '"');
        }
        assert(content[0] != '#' && content[0] != '@' && content[0] != '{');
        assert(!is_ws(content[0]));
    } else {
        assert(content[0] == '[');
    }
    assert(content[1] != ':' && content[3] != ':');
    lemma_trim_id(content);
    assert(!skipped(content)) by {
        if starts_with(content, seq!['s', ':']) {
            assert(content.subrange(0, 2)[1] == content[1]);
        }
        if starts_with(content, seq!['r', ':']) {
            assert(content.subrange(0, 2)[1] == content[1]);
        }
        if starts_with(content, seq!['s', 'e', 'c', ':']) {
            assert(content.subrange(0, 4)[3] == content[3]);
        }
        if starts_with(content, seq!['@', '@']) {
            assert(content.subrange(0, 2)[0] == content[0]);
        }
        if starts_with(content, seq!['@', 'u', 's', 'e', ' ']) {
            assert(content.subrange(0, 5)[0] == content[0]);
        }
    }
    assert(!starts_with(content, seq!['-', ' '])) by {
        if starts_with(content, seq!['-', ' ']) {
            assert(content.subrange(0, 2)[1] == content[1]);
            assert(content.subrange(0, 2)[0] == content[0]);
        }
    }
}

/// A row of a table is its object's values written as items.
proof fn lemma_row_is_items(st: Style, a: Seq<SpecValue>, i: int)
    requires
        tabular_reads_back(st, a),
        0 <= i < a.len(),
    ensures
        row_text(st, keys_of(a[0]->Object_0), a[i]->Object_0) == items_text(
            st,
            values_of(a[i]->Object_0),
        ),
        distinct_keys(a[i]->Object_0),
        keys_of(a[i]->Object_0) == keys_of(a[0]->Object_0),
        inline_array_reads_back(st, values_of(a[i]->Object_0)),
{
    let o = a[i]->Object_0;
    assert(a[i] is Object);
    lemma_same_keys_distinct(o, a[0]->Object_0);
    lemma_row_text(st, o, o.len() as int);
    assert(keys_of(o).take(o.len() as int) =~= keys_of(o));
    assert(values_of(o).take(o.len() as int) =~= values_of(o));
}

/// A row line of a table is clean.
proof fn lemma_row_clean(st: Style, a: Seq<SpecValue>, i: int, depth: nat)
    requires
        tabular_reads_back(st, a),
        0 <= i < a.len(),
    ensures
        clean_line(row_line(st, keys_of(a[0]->Object_0), a[i], depth)),
{
    lemma_row_is_items(st, a, i);
    let o = a[i]->Object_0;
    let vals = values_of(o);
    lemma_items_text_from(st, vals);
    lemma_items_chars(st, vals);
    let t = items_text(st, vals);
    assert(item_reads_back(st, vals[0]));
    lemma_primitive_start(st, vals[0]);
    assert(t[0] == primitive_text(st, vals[0])[0]) by {
        if vals.len() > 1 {
            assert(t == primitive_text(st, vals[0]) + seq![st.delimiter, ' '] + crate::array_round_trip::items_from(
                st,
                vals.drop_first(),
            ));
        }
    }
    lemma_trim_id(t);
    lemma_find_none(t, '\n');
    let p0 = primitive_text(st, vals[0]);
    assert(st.delimiter == ',');
    assert forall|j: int| 0 <= j < t.len() && j <= p0.len() implies #[trigger] t[j] == (if j
        < p0.len() {
        p0[j]
    } else {
        ','
    }) by {
        if vals.len() > 1 {
            assert(t == p0 + seq![st.delimiter, ' '] + crate::array_round_trip::items_from(
                st,
                vals.drop_first(),
            ));
        } else {
            assert(t == p0);
        }
    }
    assert(!skipped(t)) by {
        if crate::array_round_trip::written_quoted(st, vals[0]) {
            assert(p0[0] == '"');
            assert(t[0] == p0[0]);
        } else {
            assert(forall|j: int| 0 <= j < p0.len() ==> plain_item_char(#[trigger] p0[j]));
            if t.len() >= 2 {
                assert(t[1] != ':') by {
                    if p0.len() >= 2 {
                        assert(plain_item_char(p0[1]));
                    }
                }
            }
            if t.len() >= 4 {
                assert(t[3] != ':' || t[1] != 'e' || t[2] != 'c') by {
                    if p0.len() >= 4 {
                        assert(plain_item_char(p0[3]));
                    } else if p0.len() == 3 {
                        assert(t[3] == ',');
                    } else if p0.len() == 2 {
                        assert(t[2] == ',');
                    } else {
                        assert(t[1] == ',');
                    }
                }
            }
        }
        if starts_with(t, seq!['s', ':']) {
            assert(t.subrange(0, 2)[0] == t[0]);
            assert(t.subrange(0, 2)[1] == t[1]);
        }
        if starts_with(t, seq!['r', ':']) {
            assert(t.subrange(0, 2)[0] == t[0]);
            assert(t.subrange(0, 2)[1] == t[1]);
        }
        if starts_with(t, seq!['s', 'e', 'c', ':']) {
            assert(t.subrange(0, 4)[0] == t[0]);
            assert(t.subrange(0, 4)[1] == t[1]);
            assert(t.subrange(0, 4)[2] == t[2]);
            assert(t.subrange(0, 4)[3] == t[3]);
        }
        if starts_with(t, seq!['@', '@']) {
            assert(t.subrange(0, 2)[0] == t[0]);
        }
        if starts_with(t, seq!['@', 'u', 's', 'e', ' ']) {
            assert(t.subrange(0, 5)[0] == t[0]);
        }
    }
}

/// The lines of a table have the shape of lines at its depth.
pub(crate) proof fn lemma_table_shape(
    kt: Seq<char>,
    key: Option<Seq<char>>,
    st: Style,
    a: Seq<SpecValue>,
    depth: nat,
)
    requires
        tabular_reads_back(st, a),
        key is None ==> kt.len() == 0,
        key is Some ==> kt == key_text(key->0) && key_reads_back(key->0) && array_key_ok(key->0),
    ensures
        lines_shape(table_lines(kt, st, keys_of(a[0]->Object_0), a, depth), depth),
{
    let fs = keys_of(a[0]->Object_0);
    let ls = table_lines(kt, st, fs, a, depth);
    let first = a[0]->Object_0;
    assert(inline_array_reads_back(st, values_of(first)));
    assert(fs.len() > 0);
    assert forall|j: int| 0 <= j < fs.len() implies field_reads_back(#[trigger] fs[j]) by {
        assert(fs[j] == first[j].0);
    }
    lemma_table_header_line(kt, key, st, fs, a.len());
    assert(ls[0].content == table_header(kt, st, fs, a.len()));
    assert forall|i: int| 0 <= i < ls.len() implies clean_line(#[trigger] ls[i]) && ls[i].depth
        >= depth by {
        if i > 0 {
            assert(ls[i] == row_line(st, fs, a[i - 1], depth + 1));
            lemma_row_clean(st, a, i - 1, depth + 1);
        }
    }
    assert forall|j: int| 0 < j < ls.len() implies #[trigger] ls[j].depth <= ls[j - 1].depth + 1 by {
        assert(ls[j].depth == depth + 1);
    }
}

/// The rows of a table are read back as its objects.
proof fn lemma_tabular_rows(
    lines: Seq<LineModel>,
    base: nat,
    i0: int,
    st: Style,
    a: Seq<SpecValue>,
    r: int,
)
    requires
        tabular_reads_back(st, a),
        0 <= r <= a.len(),
        0 <= i0,
        i0 + a.len() <= lines.len(),
        forall|t: int|
            0 <= t < a.len() ==> lines[i0 + t] == row_line(
                st,
                keys_of(a[0]->Object_0),
                #[trigger] a[t],
                base + 1,
            ),
    ensures
        tabular_rows(lines, base, i0 + r, a.len(), keys_of(a[0]->Object_0), ',', a.take(r)) == a,
    decreases a.len() - r,
{
    let fs = keys_of(a[0]->Object_0);
    if r == a.len() {
        assert(a.take(r) =~= a);
    } else {
        assert(lines[i0 + r] == row_line(st, fs, a[r], base + 1));
        lemma_row_is_items(st, a, r);
        let o = a[r]->Object_0;
        lemma_delimited_items(st, values_of(o));
        lemma_row_entries(o, o.len());
        assert(o.take(o.len() as int) =~= o);
        assert(fs.len() == o.len()) by {
            assert(keys_of(o).len() == o.len());
        }
        assert(a.take(r).push(SpecValue::Object(o)) =~= a.take(r + 1));
        lemma_tabular_rows(lines, base, i0, st, a, r + 1);
    }
}

/// The lines of a table are read back as the array.
pub(crate) proof fn lemma_table_array_lines(
    lines: Seq<LineModel>,
    i: int,
    kt: Seq<char>,
    key: Option<Seq<char>>,
    st: Style,
    a: Seq<SpecValue>,
)
    requires
        tabular_reads_back(st, a),
        key is None ==> kt.len() == 0,
        key is Some ==> kt == key_text(key->0) && key_reads_back(key->0) && array_key_ok(key->0),
        0 <= i,
        i + 1 + a.len() <= lines.len(),
        lines.subrange(i, i + 1 + a.len()) == table_lines(
            kt,
            st,
            keys_of(a[0]->Object_0),
            a,
            lines[i].depth,
        ),
    ensures
        try_header_of(lines[i].content) == Some(
            HeaderModel {
                key,
                length: a.len(),
                delimiter: ',',
                fields: Some(keys_of(a[0]->Object_0)),
                inline_values: None,
            },
        ),
        array_lines(lines, i, try_header_of(lines[i].content)->0) == Ok::<SpecValue, DecodeError>(
            SpecValue::Array(a),
        ),
{
    let fs = keys_of(a[0]->Object_0);
    let first = a[0]->Object_0;
    let base = lines[i].depth;
    let ls = table_lines(kt, st, fs, a, base);
    assert(inline_array_reads_back(st, values_of(first)));
    assert forall|j: int| 0 <= j < fs.len() implies field_reads_back(#[trigger] fs[j]) by {
        assert(fs[j] == first[j].0);
    }
    assert(lines[i] == ls[0]) by {
        assert(lines.subrange(i, i + 1 + a.len())[0] == ls[0]);
    }
    lemma_table_header(kt, key, st, fs, a.len());
    assert forall|t: int| 0 <= t < a.len() implies lines[i + 1 + t] == row_line(
        st,
        fs,
        #[trigger] a[t],
        base + 1,
    ) by {
        assert(lines.subrange(i, i + 1 + a.len())[1 + t] == ls[1 + t]);
    }
    lemma_tabular_rows(lines, base, i + 1, st, a, 0);
    assert(a.take(0) =~= Seq::<SpecValue>::empty());
}

} // verus!
