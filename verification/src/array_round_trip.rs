//! What the decoder reads back of an array of primitives written on one line.
use vstd::prelude::*;
use crate::decoder::skipped;
use crate::document_round_trip::{
    clean_line, key_reads_back, key_unsafe_char, lemma_find_first, lemma_find_none, lemma_key_text,
    lemma_primitive_no_line_feed,
    lemma_trim_spaces, lemma_trimmed_ends,
};
use crate::layout::LineModel;
use crate::format::{
    count_text, escape, escape_char, items_text, key_text, primitive_text, quoted, safe_unquoted,
    spaces, valid_unquoted_key, Style,
};
use crate::inline::{delimited_of, try_header_of, HeaderModel};
use crate::round_trip::{lemma_digits_end_all, lemma_nat_text, lemma_primitive_round_trip, lemma_trim_id, reads_back};
use crate::syntax::{parse_usize, split_bounds, split_scan};
use crate::text::{
    contains_char, find_from, int_text, is_digit, is_ws, lemma_find_from,
    nat_text, starts_with, trim,
};
use crate::value::SpecValue;

verus! {

// ---------------------------------------------------------------------------
// Inline arrays
// ---------------------------------------------------------------------------
/// A string written in quotes.
pub open spec fn written_quoted(st: Style, x: SpecValue) -> bool {
    x is Str && !safe_unquoted(st, x->Str_0)
}

/// A character that can stand in an item of an inline array outside quotes.
pub open spec fn plain_item_char(c: char) -> bool {
    c != '"' && c != ':' && c != ',' && c != '{' && c != '}' && c != '[' && c != ']'
}

/// An item of an inline array that reads back: a primitive that reads back,
/// written in quotes or with no quote, colon, comma, brace or bracket.
pub open spec fn item_reads_back(st: Style, x: SpecValue) -> bool {
    &&& reads_back(st, x)
    &&& (written_quoted(st, x) || forall|j: int|
        0 <= j < primitive_text(st, x).len() ==> plain_item_char(
            #[trigger] primitive_text(st, x)[j],
        ))
}

/// The items of an inline array that reads back: at most `usize::MAX` items
/// that read back, separated by commas.
pub open spec fn inline_array_reads_back(st: Style, a: Seq<SpecValue>) -> bool {
    &&& st.delimiter == ','
    &&& 0 < a.len() <= usize::MAX
    &&& forall|i: int| 0 <= i < a.len() ==> item_reads_back(st, #[trigger] a[i])
}

/// Items written from the first on.
pub open spec fn items_from(st: Style, a: Seq<SpecValue>) -> Seq<char>
    decreases a.len(),
{
    if a.len() == 0 {
        Seq::empty()
    } else if a.len() == 1 {
        primitive_text(st, a[0])
    } else {
        primitive_text(st, a[0]) + seq![st.delimiter, ' '] + items_from(st, a.drop_first())
    }
}

proof fn lemma_items_from_last(st: Style, a: Seq<SpecValue>)
    requires
        a.len() >= 2,
    ensures
        items_from(st, a) == items_from(st, a.drop_last()) + seq![st.delimiter, ' '] + primitive_text(
            st,
            a.last(),
        ),
    decreases a.len(),
{
    let r = a.drop_first();
    let p = a.drop_last();
    let sep = seq![st.delimiter, ' '];
    assert(items_from(st, a) == primitive_text(st, a[0]) + sep + items_from(st, r));
    if a.len() == 2 {
        assert(r.len() == 1);
        assert(p.len() == 1);
        assert(p[0] == a[0]);
        assert(r[0] == a.last());
        assert(items_from(st, r) == primitive_text(st, r[0]));
        assert(items_from(st, p) == primitive_text(st, p[0]));
    } else {
        lemma_items_from_last(st, r);
        assert(r.drop_last() =~= p.drop_first());
        assert(p[0] == a[0]);
        assert(r.last() == a.last());
        assert(items_from(st, p) == primitive_text(st, p[0]) + sep + items_from(st, p.drop_first()));
        assert(items_from(st, a) =~= items_from(st, p) + sep + primitive_text(st, a.last()));
    }
}

/// Items are written the same from either end.
pub(crate) proof fn lemma_items_text_from(st: Style, a: Seq<SpecValue>)
    ensures
        items_text(st, a) == items_from(st, a),
    decreases a.len(),
{
    if a.len() >= 2 {
        lemma_items_text_from(st, a.drop_last());
        lemma_items_from_last(st, a);
    }
}

/// Splitting passes over characters that are no quote, comma, brace or
/// bracket.
pub(crate) proof fn lemma_split_plain(
    s: Seq<char>,
    i: int,
    j: int,
    seg: int,
    parts: Seq<(int, int)>,
)
    requires
        0 <= i <= j <= s.len(),
        forall|k: int| i <= k < j ==> plain_item_char(#[trigger] s[k]),
    ensures
        split_scan(s, ',', i, seg, false, 0, 0, parts) == split_scan(s, ',', j, seg, false, 0, 0, parts),
    decreases j - i,
{
    if i < j {
        assert(plain_item_char(s[i]));
        lemma_split_plain(s, i + 1, j, seg, parts);
    }
}

/// Splitting passes over an escaped string inside quotes as a whole.
proof fn lemma_split_escape(t: Seq<char>, i: int, s: Seq<char>, seg: int, parts: Seq<(int, int)>)
    requires
        0 <= i,
        i + escape(s).len() < t.len(),
        t.subrange(i, i + escape(s).len()) == escape(s),
    ensures
        split_scan(t, ',', i, seg, true, 0, 0, parts) == split_scan(
            t,
            ',',
            i + escape(s).len(),
            seg,
            true,
            0,
            0,
            parts,
        ),
    decreases s.len(),
{
    if s.len() > 0 {
        crate::round_trip::lemma_escape_first(s);
        let e = escape_char(s[0]);
        let rest = s.drop_first();
        assert(escape(s).len() == e.len() + escape(rest).len());
        assert(t.subrange(i + e.len(), i + e.len() + escape(rest).len()) =~= escape(rest)) by {
            assert forall|k: int| 0 <= k < escape(rest).len() implies t[i + e.len() + k] == escape(
                rest,
            )[k] by {
                assert(t.subrange(i, i + escape(s).len())[e.len() + k] == escape(s)[e.len() + k]);
            }
        }
        assert(t[i] == escape(s)[0]) by {
            assert(t.subrange(i, i + escape(s).len())[0] == escape(s)[0]);
        }
        if crate::round_trip::escaped(s[0]) {
            assert(e.len() == 2);
            assert(t[i] == '\\');
        } else {
            assert(e.len() == 1);
            assert(t[i] == s[0]);
        }
        lemma_split_escape(t, i + e.len(), rest, seg, parts);
    }
}

/// Splitting passes over the text of an item as a whole.
pub(crate) proof fn lemma_split_item(s: Seq<char>, i: int, seg: int, parts: Seq<(int, int)>, st: Style, x: SpecValue)
    requires
        item_reads_back(st, x),
        0 <= i,
        i + primitive_text(st, x).len() <= s.len(),
        s.subrange(i, i + primitive_text(st, x).len() as int) == primitive_text(st, x),
    ensures
        split_scan(s, ',', i, seg, false, 0, 0, parts) == split_scan(
            s,
            ',',
            i + primitive_text(st, x).len(),
            seg,
            false,
            0,
            0,
            parts,
        ),
{
    let pt = primitive_text(st, x);
    let n = pt.len() as int;
    if written_quoted(st, x) {
        let str = x->Str_0;
        let e = escape(str);
        let el = e.len() as int;
        assert(pt == quoted(str));
        assert(n == el + 2);
        assert(s[i] == '"') by {
            assert(s.subrange(i, i + n)[0] == pt[0]);
        }
        assert(s[i + 1 + el] == '"') by {
            assert(s.subrange(i, i + n)[1 + el] == pt[1 + el]);
        }
        assert(s.subrange(i + 1, i + 1 + el) =~= e) by {
            assert forall|k: int| 0 <= k < el implies s[i + 1 + k] == e[k] by {
                assert(s.subrange(i, i + n)[1 + k] == pt[1 + k]);
            }
        }
        lemma_split_escape(s, i + 1, str, seg, parts);
    } else {
        assert forall|k: int| i <= k < i + n implies plain_item_char(#[trigger] s[k]) by {
            assert(s.subrange(i, i + n)[k - i] == pt[k - i]);
        }
        lemma_split_plain(s, i, i + n, seg, parts);
    }
}

/// Splitting items written from the first on gives one part per item, whose
/// trimmed text is the item's text.
proof fn lemma_split_items(
    s: Seq<char>,
    i: int,
    seg: int,
    parts: Seq<(int, int)>,
    st: Style,
    a: Seq<SpecValue>,
)
    requires
        st.delimiter == ',',
        a.len() > 0,
        forall|k: int| 0 <= k < a.len() ==> item_reads_back(st, #[trigger] a[k]),
        0 <= seg <= i <= s.len(),
        s.subrange(i, s.len() as int) == items_from(st, a),
        forall|k: int| seg <= k < i ==> s[k] == ' ',
    ensures
        ({
            let r = split_scan(s, ',', i, seg, false, 0, 0, parts);
            &&& r.len() == parts.len() + a.len()
            &&& r.subrange(0, parts.len() as int) == parts
            &&& forall|k: int|
                0 <= k < a.len() ==> 0 <= #[trigger] r[parts.len() + k].0 <= r[parts.len() + k].1
                    <= s.len() && trim(s.subrange(r[parts.len() + k].0, r[parts.len() + k].1))
                    == primitive_text(st, a[k])
        }),
    decreases a.len(),
{
    let x = a[0];
    let pt = primitive_text(st, x);
    let n = pt.len() as int;
    assert(item_reads_back(st, x));
    lemma_primitive_round_trip(st, x);
    let rest_text = s.subrange(i, s.len() as int);
    assert(n <= rest_text.len() && rest_text.subrange(0, n) == pt) by {
        if a.len() == 1 {
            assert(rest_text == pt);
        } else {
            assert(rest_text == pt + seq![st.delimiter, ' '] + items_from(st, a.drop_first()));
        }
        assert(rest_text.subrange(0, n) =~= pt);
    }
    assert(s.subrange(i, i + n) =~= pt) by {
        assert forall|k: int| 0 <= k < n implies s[i + k] == pt[k] by {
            assert(rest_text[k] == s[i + k]);
            assert(rest_text.subrange(0, n)[k] == rest_text[k]);
        }
    }
    lemma_split_item(s, i, seg, parts, st, x);
    let piece = s.subrange(seg, i + n);
    assert(piece =~= spaces((i - seg) as nat) + pt);
    lemma_trim_spaces((i - seg) as nat, pt);
    if a.len() == 1 {
        assert(i + n == s.len());
        let r = split_scan(s, ',', i, seg, false, 0, 0, parts);
        assert(r == parts.push((seg, s.len() as int)));
        assert(r.subrange(0, parts.len() as int) =~= parts);
    } else {
        let j = i + n;
        assert(s[j] == ',') by {
            assert(rest_text == pt + seq![st.delimiter, ' '] + items_from(st, a.drop_first()));
            assert(rest_text[n] == ',');
        }
        assert(s[j + 1] == ' ') by {
            assert(rest_text == pt + seq![st.delimiter, ' '] + items_from(st, a.drop_first()));
            assert(rest_text[n + 1] == ' ');
        }
        let parts2 = parts.push((seg, j));
        assert(split_scan(s, ',', j, seg, false, 0, 0, parts) == split_scan(
            s,
            ',',
            j + 1,
            j + 1,
            false,
            0,
            0,
            parts2,
        ));
        assert(split_scan(s, ',', j + 1, j + 1, false, 0, 0, parts2) == split_scan(
            s,
            ',',
            j + 2,
            j + 1,
            false,
            0,
            0,
            parts2,
        ));
        let r2 = a.drop_first();
        assert(s.subrange(j + 2, s.len() as int) =~= items_from(st, r2)) by {
            assert(rest_text == pt + seq![st.delimiter, ' '] + items_from(st, r2));
            assert forall|k: int| 0 <= k < s.len() - (j + 2) implies s.subrange(
                j + 2,
                s.len() as int,
            )[k] == items_from(st, r2)[k] by {
                assert(rest_text[n + 2 + k] == s[j + 2 + k]);
            }
        }
        assert forall|k: int| 0 <= k < r2.len() implies item_reads_back(st, #[trigger] r2[k]) by {
            assert(r2[k] == a[k + 1]);
        }
        lemma_split_items(s, j + 2, j + 1, parts2, st, r2);
        let r = split_scan(s, ',', i, seg, false, 0, 0, parts);
        assert(r == split_scan(s, ',', j + 2, j + 1, false, 0, 0, parts2));
        assert(r.subrange(0, parts2.len() as int) == parts2);
        assert(r.subrange(0, parts.len() as int) =~= parts) by {
            assert forall|k: int| 0 <= k < parts.len() implies r[k] == parts[k] by {
                assert(r.subrange(0, parts2.len() as int)[k] == parts2[k]);
            }
        }
        assert(r[parts.len() as int] == (seg, j)) by {
            assert(r.subrange(0, parts2.len() as int)[parts.len() as int] == parts2[parts.len() as int]);
        }
        assert forall|k: int| 0 <= k < a.len() implies 0 <= #[trigger] r[parts.len() + k].0
            <= r[parts.len() + k].1 <= s.len() && trim(
            s.subrange(r[parts.len() + k].0, r[parts.len() + k].1),
        ) == primitive_text(st, a[k]) by {
            if k > 0 {
                assert(r[parts.len() + k] == r[parts2.len() + (k - 1)]);
                assert(a[k] == r2[k - 1]);
            }
        }
    }
}

/// Items written with commas are read back as the items.
pub proof fn lemma_delimited_items(st: Style, a: Seq<SpecValue>)
    requires
        inline_array_reads_back(st, a),
    ensures
        delimited_of(items_text(st, a), ',') == a,
{
    let s = items_text(st, a);
    lemma_items_text_from(st, a);
    assert(s.subrange(0, s.len() as int) =~= s);
    lemma_split_items(s, 0, 0, Seq::empty(), st, a);
    let b = split_bounds(s, ',');
    assert(b.len() == a.len());
    assert forall|k: int| 0 <= k < a.len() implies delimited_of(s, ',')[k] == a[k] by {
        assert(b[0 + k] == b[k]);
        let piece = s.subrange(b[k].0, b[k].1);
        assert(item_reads_back(st, a[k]));
        lemma_primitive_round_trip(st, a[k]);
        assert(trim(piece) == primitive_text(st, a[k]));
    }
    assert(delimited_of(s, ',') =~= a);
}

/// The text of items that read back is not empty, starts and ends with no
/// whitespace, and holds no line feed.
pub(crate) proof fn lemma_items_chars(st: Style, a: Seq<SpecValue>)
    requires
        st.delimiter == ',',
        a.len() > 0,
        forall|k: int| 0 <= k < a.len() ==> item_reads_back(st, #[trigger] a[k]),
    ensures
        items_from(st, a).len() > 0,
        !is_ws(items_from(st, a)[0]),
        !is_ws(items_from(st, a).last()),
        forall|j: int| 0 <= j < items_from(st, a).len() ==> items_from(st, a)[j] != '\n',
    decreases a.len(),
{
    let x = a[0];
    let pt = primitive_text(st, x);
    assert(item_reads_back(st, x));
    lemma_primitive_round_trip(st, x);
    lemma_trimmed_ends(pt);
    lemma_primitive_no_line_feed(st, x);
    lemma_find_from(pt, '\n', 0);
    let t = items_from(st, a);
    if a.len() > 1 {
        let r = a.drop_first();
        assert forall|k: int| 0 <= k < r.len() implies item_reads_back(st, #[trigger] r[k]) by {
            assert(r[k] == a[k + 1]);
        }
        lemma_items_chars(st, r);
        let u = items_from(st, r);
        assert(t == pt + seq![st.delimiter, ' '] + u);
        assert(t[0] == pt[0]);
        assert(t.last() == u.last());
        assert forall|j: int| 0 <= j < t.len() implies t[j] != '\n' by {
            if j < pt.len() {
                assert(t[j] == pt[j]);
            } else if j >= pt.len() + 2 {
                assert(t[j] == u[j - pt.len() - 2]);
            } else if j == pt.len() {
                assert(t[j] == st.delimiter);
            }
        }
    }
}

/// A key that can stand before an array header: it holds no colon and no
/// `[`, and is written bare or has nothing to escape.
pub open spec fn array_key_ok(k: Seq<char>) -> bool {
    !contains_char(k, ':') && !contains_char(k, '[') && (valid_unquoted_key(k) || escape(k) == k)
}

/// The decimal text of a count reads back as the count.
pub(crate) proof fn lemma_parse_count(n: nat)
    requires
        n <= usize::MAX,
    ensures
        parse_usize(nat_text(n)) == Some(n),
{
    let t = nat_text(n);
    lemma_nat_text(n);
    lemma_digits_end_all(t, 0);
    assert(t.subrange(0, t.len() as int) =~= t);
}

/// The line of an inline array, `key[n]: items`, is an array header with the
/// key (if any), the count, commas and the items.
pub(crate) proof fn lemma_array_header(kt: Seq<char>, key: Option<Seq<char>>, st: Style, a: Seq<SpecValue>)
    requires
        inline_array_reads_back(st, a),
        key is None ==> kt.len() == 0,
        key is Some ==> kt == key_text(key->0) && key_reads_back(key->0) && array_key_ok(key->0),
    ensures
        try_header_of(kt + count_text(a.len()) + seq![':', ' '] + items_text(st, a)) == Some(
            HeaderModel {
                key,
                length: a.len(),
                delimiter: ',',
                fields: None,
                inline_values: Some(items_text(st, a)),
            },
        ),
{
    let n = a.len();
    let nt = nat_text(n);
    let items = items_text(st, a);
    lemma_items_text_from(st, a);
    lemma_items_chars(st, a);
    lemma_nat_text(n);
    assert(int_text(n as int) == nt);
    let content = kt + count_text(n) + seq![':', ' '] + items;
    let p = kt.len() as int;
    let q = p + 1 + nt.len();
    assert(content.len() == q + 3 + items.len());
    if key is Some {
        let k = key->0;
        lemma_key_text(k);
        lemma_find_from(k, ':', 0);
        if !valid_unquoted_key(k) {
            assert(kt == seq!['"'] + k + seq!['"']);
        }
    }
    assert forall|j: int| 0 <= j < p implies kt[j] != '[' && kt[j] != ':' by {
        if key is Some {
            let k = key->0;
            if valid_unquoted_key(k) {
                assert(!key_unsafe_char(k[j]));
            } else {
                if 0 < j < p - 1 {
                    assert(kt[j] == k[j - 1]);
                }
            }
        }
    }
    assert forall|j: int| 0 <= j < p implies content[j] == kt[j] by {}
    assert(content[p] == '[');
    assert forall|j: int| 0 <= j < nt.len() implies content[p + 1 + j] == nt[j] by {}
    assert(content[q] == ']');
    assert(content[q + 1] == ':');
    assert(content[q + 2] == ' ');
    assert forall|j: int| 0 <= j < items.len() implies content[q + 3 + j] == items[j] by {}
    // the first `[` and the first colon
    lemma_find_first(content, '[', p);
    assert forall|j: int| 0 <= j < q + 1 implies content[j] != ':' by {
        if p < j < q {
            assert(is_digit(nt[j - p - 1]));
        }
    }
    lemma_find_first(content, ':', q + 1);
    // the closing bracket and the count
    lemma_find_from(content, ']', p);
    assert forall|j: int| p <= j < q implies content[j] != ']' by {
        if p < j {
            assert(is_digit(nt[j - p - 1]));
        }
    }
    assert(find_from(content, ']', p) == q);
    assert(content.subrange(p + 1, q) =~= nt);
    assert(is_digit(nt.last()));
    lemma_parse_count(n);
    // the colon that ends the header
    assert(find_from(content, ':', q + 1) == q + 1);
    let after = content.subrange(q + 1, content.len() as int);
    assert(after[0] == ':');
    let tail = content.subrange(q + 2, content.len() as int);
    assert(tail =~= spaces(1) + items);
    lemma_trim_id(items);
    lemma_trim_spaces(1, items);
    // the key
    if key is Some {
        let k = key->0;
        let raw = content.subrange(0, p);
        assert(raw =~= kt);
        if valid_unquoted_key(k) {
            assert(!key_unsafe_char(k[0]));
        } else {
            assert(kt[0] == '"' && kt.last() == '"');
            lemma_trim_id(kt);
            assert(kt.subrange(1, kt.len() - 1) =~= k);
        }
    } else {
        assert(p == 0);
    }
}

/// The text of the line of an inline array.
pub open spec fn array_line(kt: Seq<char>, st: Style, a: Seq<SpecValue>) -> Seq<char> {
    kt + count_text(a.len()) + seq![':', ' '] + items_text(st, a)
}

/// The characters of the line of an inline array: the key's text (with no
/// colon and no line feed), `[`, the count's digits, `]`, a colon, a space and
/// the items (with no line feed).
proof fn lemma_array_line_chars(kt: Seq<char>, key: Option<Seq<char>>, st: Style, a: Seq<SpecValue>)
    requires
        inline_array_reads_back(st, a),
        key is None ==> kt.len() == 0,
        key is Some ==> kt == key_text(key->0) && key_reads_back(key->0) && array_key_ok(key->0),
    ensures
        ({
            let content = array_line(kt, st, a);
            let items = items_text(st, a);
            let p = kt.len() as int;
            let q = p + 1 + nat_text(a.len()).len();
            &&& content.len() == q + 3 + items.len()
            &&& items.len() > 0
            &&& !is_ws(items.last())
            &&& content.last() == items.last()
            &&& forall|j: int| 0 <= j < q + 1 ==> content[j] != ':' && content[j] != '\n'
            &&& content[q + 1] == ':'
            &&& forall|j: int| q + 1 < j < content.len() ==> content[j] != '\n'
            &&& forall|j: int| 0 <= j < p ==> content[j] == kt[j]
            &&& content[p] == '['
        }),
{
    let n = a.len();
    let nt = nat_text(n);
    let items = items_text(st, a);
    lemma_items_text_from(st, a);
    lemma_items_chars(st, a);
    lemma_nat_text(n);
    assert(int_text(n as int) == nt);
    let content = array_line(kt, st, a);
    let p = kt.len() as int;
    let q = p + 1 + nt.len();
    assert(content.len() == q + 3 + items.len());
    if key is Some {
        let k = key->0;
        lemma_key_text(k);
        lemma_find_from(k, ':', 0);
        if !valid_unquoted_key(k) {
            assert(kt == seq!['"'] + k + seq!['"']);
        }
    }
    assert forall|j: int| 0 <= j < p implies kt[j] != ':' && kt[j] != '\n' by {
        if key is Some {
            let k = key->0;
            if valid_unquoted_key(k) {
                assert(!key_unsafe_char(k[j]));
            } else {
                if 0 < j < p - 1 {
                    assert(kt[j] == k[j - 1]);
                }
            }
        }
    }
    assert forall|j: int| 0 <= j < p implies content[j] == kt[j] by {}
    assert forall|j: int| 0 <= j < nt.len() implies content[p + 1 + j] == nt[j] by {}
    assert forall|j: int| 0 <= j < items.len() implies content[q + 3 + j] == items[j] by {}
    assert forall|j: int| 0 <= j < q + 1 implies content[j] != ':' && content[j] != '\n' by {
        if p < j < q {
            assert(is_digit(nt[j - p - 1]));
        }
    }
    assert forall|j: int| q + 1 < j < content.len() implies content[j] != '\n' by {
        if j >= q + 3 {
            assert(content[j] == items[j - q - 3]);
        }
    }
}

/// The line of an inline array is clean, no list item, starts with no `{`,
/// and holds a colon.
pub(crate) proof fn lemma_array_line(kt: Seq<char>, key: Option<Seq<char>>, st: Style, a: Seq<SpecValue>)
    requires
        inline_array_reads_back(st, a),
        key is None ==> kt.len() == 0,
        key is Some ==> kt == key_text(key->0) && key_reads_back(key->0) && array_key_ok(key->0),
    ensures
        clean_line(LineModel { depth: 0, content: array_line(kt, st, a) }),
        !starts_with(array_line(kt, st, a), seq!['-', ' ']),
        array_line(kt, st, a)[0] != '{',
        contains_char(array_line(kt, st, a), ':'),
{
    let content = array_line(kt, st, a);
    let p = kt.len() as int;
    let q = p + 1 + nat_text(a.len()).len();
    lemma_array_line_chars(kt, key, st, a);
    lemma_nat_text(a.len());
    assert forall|j: int| 0 <= j < content.len() implies content[j] != '\n' by {
        if j != q + 1 && j > q + 1 {
        }
    }
    lemma_find_none(content, '\n');
    lemma_find_from(content, ':', 0);
    if key is Some {
        let k = key->0;
        lemma_key_text(k);
        assert(q + 1 >= 4);
        if valid_unquoted_key(k) {
            assert(kt == k);
            assert(!key_unsafe_char(k[0]));
            if p > 1 {
                assert(!key_unsafe_char(k[1]));
                assert(content[1] == k[1]);
            }
            assert(content[0] != '-' || content[1] != ' ');
        } else {
            assert(content[0] == '"');
        }
        assert(content[0] != '#' && content[0] != '@' && content[0] != '{');
        assert(content[1] != ':');
        assert(content[3] != ':');
        assert(!is_ws(content[0]));
    } else {
        assert(content[0] == '[');
    }
    lemma_trim_id(content);
    assert(!skipped(content)) by {
        if starts_with(content, seq!['s', ':']) {
            assert(content.subrange(0, 2)[1] == content[1]);
        }
        if starts_with(content, seq!['r', ':']) {
            assert(content.subrange(0, 2)[1] == content[1]);
        }
        if starts_with(content, seq!['s', 'e', 'c', ':']) {
            assert(content.subrange(0, 4)[3] == content[3]);
            assert(content.subrange(0, 4)[0] == content[0]);
        }
        if starts_with(content, seq!['@', '@']) {
            assert(content.subrange(0, 2)[0] == content[0]);
        }
        if starts_with(content, seq!['@', 'u', 's', 'e', ' ']) {
            assert(content.subrange(0, 5)[0] == content[0]);
        }
    }
    assert(!starts_with(content, seq!['-', ' '])) by {
        if starts_with(content, seq!['-', ' ']) {
            assert(content.subrange(0, 2)[1] == content[1]);
            assert(content.subrange(0, 2)[0] == content[0]);
        }
    }
}

/// The header of an array written as list items, `key[n]:` or `[n]:`: an
/// array header with the key (if any) and the count, no fields and nothing
/// inline; the line is clean, no list item, starts with no `{` and holds a
/// colon.
pub(crate) proof fn lemma_list_header(kt: Seq<char>, key: Option<Seq<char>>, n: nat)
    requires
        key is None ==> kt.len() == 0,
        key is Some ==> kt == key_text(key->0) && key_reads_back(key->0) && array_key_ok(key->0),
        0 < n <= usize::MAX,
    ensures
        ({
            let content = kt + count_text(n) + seq![':'];
            &&& try_header_of(content) == Some(
                HeaderModel { key, length: n, delimiter: ',', fields: None, inline_values: None },
            )
            &&& clean_line(LineModel { depth: 0, content })
            &&& !starts_with(content, seq!['-', ' '])
            &&& content[0] != '{'
            &&& contains_char(content, ':')
        }),
{
    lemma_list_header_parts(kt, key, n);
    lemma_list_header_line(kt, key, n);
}

/// The parts of the header of an array written as list items.
proof fn lemma_list_header_parts(kt: Seq<char>, key: Option<Seq<char>>, n: nat)
    requires
        key is None ==> kt.len() == 0,
        key is Some ==> kt == key_text(key->0) && key_reads_back(key->0) && array_key_ok(key->0),
        0 < n <= usize::MAX,
    ensures
        try_header_of(kt + count_text(n) + seq![':']) == Some(
            HeaderModel { key, length: n, delimiter: ',', fields: None, inline_values: None },
        ),
{
    let nt = nat_text(n);
    lemma_nat_text(n);
    assert(int_text(n as int) == nt);
    let content = kt + count_text(n) + seq![':'];
    let p = kt.len() as int;
    let q = p + 1 + nt.len();
    assert(content.len() == q + 2);
    if key is Some {
        let k = key->0;
        lemma_key_text(k);
        lemma_find_from(k, ':', 0);
        if !valid_unquoted_key(k) {
            assert(kt == seq!['"'] + k + seq!['"']);
        }
    }
    assert forall|j: int| 0 <= j < p implies kt[j] != '[' && kt[j] != ':' by {
        let k = key->0;
        if valid_unquoted_key(k) {
            assert(!key_unsafe_char(k[j]));
        } else {
            if 0 < j < p - 1 {
                assert(kt[j] == k[j - 1]);
            }
        }
    }
    assert forall|j: int| 0 <= j < p implies content[j] == kt[j] by {}
    assert(content[p] == '[');
    assert forall|j: int| 0 <= j < nt.len() implies content[p + 1 + j] == nt[j] by {}
    assert(content[q] == ']');
    assert(content[q + 1] == ':');
    lemma_find_first(content, '[', p);
    assert forall|j: int| 0 <= j < q + 1 implies content[j] != ':' by {
        if p < j < q {
            assert(is_digit(nt[j - p - 1]));
        }
    }
    lemma_find_first(content, ':', q + 1);
    lemma_find_from(content, ']', p);
    assert forall|j: int| p <= j < q implies content[j] != ']' by {
        if p < j {
            assert(is_digit(nt[j - p - 1]));
        }
    }
    assert(find_from(content, ']', p) == q);
    assert(content.subrange(p + 1, q) =~= nt);
    assert(is_digit(nt.last()));
    lemma_parse_count(n);
    assert(find_from(content, ':', q + 1) == q + 1);
    assert(content.subrange(q + 2, content.len() as int) =~= Seq::<char>::empty());
    assert(trim(Seq::<char>::empty()) =~= Seq::<char>::empty());
    let after = content.subrange(q + 1, content.len() as int);
    assert(after[0] == ':');
    if key is Some {
        let k = key->0;
        let raw = content.subrange(0, p);
        assert(raw =~= kt);
        if valid_unquoted_key(k) {
            assert(!key_unsafe_char(k[0]));
            assert(p >= 1);
            lemma_trimmed_ends(k);
            assert(kt.last() == k.last());
            lemma_trim_id(kt);
        } else {
            assert(kt[0] == '"' && kt.last() == '"');
            lemma_trim_id(kt);
            assert(kt.subrange(1, kt.len() - 1) =~= k);
        }
    }
}

/// The header line of an array written as list items is clean, no list item,
/// starts with no `{` and holds a colon.
proof fn lemma_list_header_line(kt: Seq<char>, key: Option<Seq<char>>, n: nat)
    requires
        key is None ==> kt.len() == 0,
        key is Some ==> kt == key_text(key->0) && key_reads_back(key->0) && array_key_ok(key->0),
        0 < n <= usize::MAX,
    ensures
        ({
            let content = kt + count_text(n) + seq![':'];
            &&& clean_line(LineModel { depth: 0, content })
            &&& !starts_with(content, seq!['-', ' '])
            &&& content[0] != '{'
            &&& contains_char(content, ':')
        }),
{
    let nt = nat_text(n);
    lemma_nat_text(n);
    assert(int_text(n as int) == nt);
    let content = kt + count_text(n) + seq![':'];
    let p = kt.len() as int;
    let q = p + 1 + nt.len();
    assert(content.len() == q + 2);
    if key is Some {
        let k = key->0;
        lemma_key_text(k);
        lemma_find_from(k, ':', 0);
        if !valid_unquoted_key(k) {
            assert(kt == seq!['"'] + k + seq!['"']);
        }
    }
    assert forall|j: int| 0 <= j < p implies kt[j] != ':' && kt[j] != '\n' by {
        let k = key->0;
        if valid_unquoted_key(k) {
            assert(!key_unsafe_char(k[j]));
        } else {
            if 0 < j < p - 1 {
                assert(kt[j] == k[j - 1]);
            }
        }
    }
    assert forall|j: int| 0 <= j < p implies content[j] == kt[j] by {}
    assert forall|j: int| 0 <= j < nt.len() implies content[p + 1 + j] == nt[j] by {}
    assert forall|j: int| 0 <= j < q + 1 implies content[j] != ':' by {
        if p < j < q {
            assert(is_digit(nt[j - p - 1]));
        }
    }
    assert forall|j: int| 0 <= j < content.len() implies content[j] != '\n' by {
        if p < j < q {
            assert(is_digit(nt[j - p - 1]));
        }
    }
    lemma_find_none(content, '\n');
    lemma_find_from(content, ':', 0);
    assert(content.last() == ':');
    if key is Some {
        let k = key->0;
        assert(q + 1 >= 4) by {
            assert(nt.len() >= 1);
            assert(p >= 1);
        }
        if valid_unquoted_key(k) {
            assert(!key_unsafe_char(k[0]));
            if p > 1 {
                assert(!key_unsafe_char(k[1]));
                assert(content[1] == k[1]);
            }
        }
        assert(content[0] != '-' || content[1] != ' ');
        assert(content[0] != '#' && content[0] != '@' && content[0] != '{');
        assert(content[1] != ':');
        assert(content[3] != ':');
        assert(!is_ws(content[0]));
    } else {
        assert(content[0] == '[');
    }
    lemma_trim_id(content);
    assert(!skipped(content)) by {
        if starts_with(content, seq!['s', ':']) {
            assert(content.subrange(0, 2)[0] == content[0]);
            assert(content.subrange(0, 2)[1] == content[1]);
        }
        if starts_with(content, seq!['r', ':']) {
            assert(content.subrange(0, 2)[0] == content[0]);
            assert(content.subrange(0, 2)[1] == content[1]);
        }
        if starts_with(content, seq!['s', 'e', 'c', ':']) {
            assert(content.subrange(0, 4)[0] == content[0]);
            assert(content.subrange(0, 4)[3] == content[3]);
        }
        if starts_with(content, seq!['@', '@']) {
            assert(content.subrange(0, 2)[0] == content[0]);
        }
        if starts_with(content, seq!['@', 'u', 's', 'e', ' ']) {
            assert(content.subrange(0, 5)[0] == content[0]);
        }
    }
    assert(!starts_with(content, seq!['-', ' '])) by {
        if starts_with(content, seq!['-', ' ']) {
            assert(content.subrange(0, 2)[0] == content[0]);
            assert(content.subrange(0, 2)[1] == content[1]);
        }
    }
}

} // verus!
