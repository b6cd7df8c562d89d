//! A document of one line whose semicolons stand inside quotes reads the same
//! whether the decoder takes it for minified or not.
use vstd::prelude::*;
use vstd::utf8::encode_utf8;
use crate::decoder::{min_scan, minified_lines, skipped};
use crate::document_round_trip::{lemma_ascii_byte, lemma_unquoted_key_chars, key_unsafe_char};
use crate::format::{
    escape, escape_char, key_text, primitive_text, quoted, safe_unquoted, valid_unquoted_key,
    value_unsafe_byte, value_unsafe_char, Quoting, Style,
};
use crate::layout::LineModel;
use crate::array_round_trip::{array_line, item_reads_back, items_from, lemma_items_text_from};
use crate::format::{count_text, items_text};
use crate::round_trip::{escaped, float_reads_back, lemma_escape_first, lemma_nat_text, reads_back};
use crate::syntax::{
    decimal_number, digits_end, eq_ignore_case, exponent_ok, float_literal, lemma_digits_end,
    lower, parse_number,
};
use crate::text::{int_text, is_digit, nat_text, trim};
use crate::value::SpecValue;

verus! {

// ---------------------------------------------------------------------------
// The characters of numbers
// ---------------------------------------------------------------------------
/// A character that can stand in the text of a number: a digit, a letter, a
/// sign or a point.
pub open spec fn number_char(c: char) -> bool {
    is_digit(c) || ('a' <= c && c <= 'z') || ('A' <= c && c <= 'Z') || c == '+' || c == '-' || c
        == '.'
}

proof fn lemma_ignore_case_chars(s: Seq<char>, w: Seq<char>)
    requires
        eq_ignore_case(s, w),
        forall|i: int| 0 <= i < w.len() ==> 'a' <= #[trigger] w[i] && w[i] <= 'z',
    ensures
        forall|i: int| 0 <= i < s.len() ==> number_char(#[trigger] s[i]),
{
    assert forall|i: int| 0 <= i < s.len() implies number_char(#[trigger] s[i]) by {
        assert(lower(s[i]) == w[i]);
    }
}

proof fn lemma_decimal_chars(s: Seq<char>)
    requires
        decimal_number(s),
    ensures
        forall|i: int| 0 <= i < s.len() ==> number_char(#[trigger] s[i]),
{
    let a = digits_end(s, 0);
    lemma_digits_end(s, 0);
    let b = if a < s.len() && s[a] == '.' {
        lemma_digits_end(s, a + 1);
        digits_end(s, a + 1)
    } else {
        a
    };
    assert(exponent_ok(s, b));
    if b < s.len() {
        let j = if b + 1 < s.len() && (s[b + 1] == '+' || s[b + 1] == '-') {
            b + 2
        } else {
            b + 1
        };
        lemma_digits_end(s, j);
    }
    assert forall|i: int| 0 <= i < s.len() implies number_char(#[trigger] s[i]) by {
        if i < a {
        } else if a < s.len() && s[a] == '.' && i < b {
            if i > a {
            }
        } else {
        }
    }
}

/// The text of a float that reads back is made of digits, letters, signs and
/// points.
pub proof fn lemma_float_chars(t: Seq<char>)
    requires
        float_reads_back(t),
    ensures
        forall|i: int| 0 <= i < t.len() ==> number_char(#[trigger] t[i]),
{
    assert(float_literal(t));
    let signed = t.len() > 0 && (t[0] == '+' || t[0] == '-');
    let s = if signed {
        t.drop_first()
    } else {
        t
    };
    if eq_ignore_case(s, seq!['i', 'n', 'f']) {
        lemma_ignore_case_chars(s, seq!['i', 'n', 'f']);
    } else if eq_ignore_case(s, seq!['i', 'n', 'f', 'i', 'n', 'i', 't', 'y']) {
        lemma_ignore_case_chars(s, seq!['i', 'n', 'f', 'i', 'n', 'i', 't', 'y']);
    } else if eq_ignore_case(s, seq!['n', 'a', 'n']) {
        lemma_ignore_case_chars(s, seq!['n', 'a', 'n']);
    } else {
        lemma_decimal_chars(s);
    }
    assert forall|i: int| 0 <= i < t.len() implies number_char(#[trigger] t[i]) by {
        if signed && i > 0 {
            assert(t[i] == s[i - 1]);
        }
    }
}

// ---------------------------------------------------------------------------
// Scanning a line for semicolons
// ---------------------------------------------------------------------------
/// Scanning a line for semicolons goes through it without splitting it.
pub open spec fn min_passes(t: Seq<char>) -> bool {
    min_scan(t, 0, 0, false, 0, Seq::empty()) == min_scan(
        t,
        t.len() as int,
        0,
        false,
        0,
        Seq::empty(),
    )
}

/// Scanning passes over characters that are no quote and no semicolon.
pub proof fn lemma_min_plain(t: Seq<char>, i: int, j: int)
    requires
        0 <= i <= j <= t.len(),
        forall|k: int| i <= k < j ==> #[trigger] t[k] != '"' && t[k] != ';',
    ensures
        min_scan(t, i, 0, false, 0, Seq::empty()) == min_scan(t, j, 0, false, 0, Seq::empty()),
    decreases j - i,
{
    if i < j {
        lemma_min_plain(t, i + 1, j);
    }
}

/// Scanning inside quotes passes over an escaped string as a whole.
proof fn lemma_min_escape(t: Seq<char>, i: int, s: Seq<char>)
    requires
        0 <= i,
        i + escape(s).len() < t.len(),
        t.subrange(i, i + escape(s).len()) == escape(s),
    ensures
        min_scan(t, i, 0, true, 0, Seq::empty()) == min_scan(
            t,
            i + escape(s).len(),
            0,
            true,
            0,
            Seq::empty(),
        ),
    decreases s.len(),
{
    if s.len() > 0 {
        lemma_escape_first(s);
        let e = escape_char(s[0]);
        let rest = s.drop_first();
        assert(escape(s).len() == e.len() + escape(rest).len());
        assert(t.subrange(i + e.len(), i + e.len() + escape(rest).len()) =~= escape(rest)) by {
            assert forall|k: int| 0 <= k < escape(rest).len() implies t[i + e.len() + k] == escape(
                rest,
            )[k] by {
                assert(t.subrange(i, i + escape(s).len())[e.len() + k] == escape(s)[e.len() + k]);
            }
        }
        assert(t[i] == escape(s)[0]) by {
            assert(t.subrange(i, i + escape(s).len())[0] == escape(s)[0]);
        }
        if escaped(s[0]) {
            assert(e.len() == 2);
            assert(t[i] == '\\');
        } else {
            assert(e.len() == 1);
            assert(t[i] == s[0]);
        }
        lemma_min_escape(t, i + e.len(), rest);
    }
}

/// Scanning passes over a quoted string as a whole.
proof fn lemma_min_quoted(t: Seq<char>, i: int, s: Seq<char>)
    requires
        0 <= i,
        i + quoted(s).len() <= t.len(),
        t.subrange(i, i + quoted(s).len()) == quoted(s),
    ensures
        min_scan(t, i, 0, false, 0, Seq::empty()) == min_scan(
            t,
            i + quoted(s).len(),
            0,
            false,
            0,
            Seq::empty(),
        ),
{
    let q = quoted(s);
    let e = escape(s);
    let el = e.len() as int;
    assert(q.len() == el + 2);
    assert(t[i] == '"') by {
        assert(t.subrange(i, i + q.len())[0] == q[0]);
    }
    assert(t[i + 1 + el] == '"') by {
        assert(t.subrange(i, i + q.len())[1 + el] == q[1 + el]);
    }
    assert(t.subrange(i + 1, i + 1 + el) =~= e) by {
        assert forall|k: int| 0 <= k < el implies t[i + 1 + k] == e[k] by {
            assert(t.subrange(i, i + q.len())[1 + k] == q[1 + k]);
        }
    }
    lemma_min_escape(t, i + 1, s);
}

/// A line that scanning passes through, clean, is read as one line when taken
/// for minified.
pub proof fn lemma_minified_one_line(c: Seq<char>)
    requires
        min_passes(c),
        c.len() > 0,
        trim(c) == c,
        !skipped(c),
    ensures
        minified_lines(c) == seq![LineModel { depth: 0, content: c }],
{
    assert(c.subrange(0, c.len() as int) =~= c);
}

// ---------------------------------------------------------------------------
// The pieces of a line
// ---------------------------------------------------------------------------
/// The text of a primitive written without quotes holds no quote, no
/// semicolon and no line feed.
pub proof fn lemma_plain_primitive_chars(st: Style, v: SpecValue)
    requires
        reads_back(st, v),
        !(v is Str && !safe_unquoted(st, v->Str_0)),
    ensures
        forall|j: int|
            0 <= j < primitive_text(st, v).len() ==> #[trigger] primitive_text(st, v)[j] != '"'
                && primitive_text(st, v)[j] != ';' && primitive_text(st, v)[j] != '\n',
{
    let pt = primitive_text(st, v);
    match v {
        SpecValue::Integer(n) => {
            if n < 0 {
                lemma_nat_text((-(n as int)) as nat);
                assert forall|j: int| 0 <= j < pt.len() implies #[trigger] pt[j] != '"' && pt[j]
                    != ';' && pt[j] != '\n' by {
                    if j > 0 {
                        assert(pt[j] == nat_text((-(n as int)) as nat)[j - 1]);
                    }
                }
            } else {
                lemma_nat_text(n as nat);
            }
        },
        SpecValue::Float(t) => {
            lemma_float_chars(t);
        },
        SpecValue::Str(s) => {
            assert(pt == s);
            assert forall|j: int| 0 <= j < pt.len() implies #[trigger] pt[j] != '"' && pt[j]
                != ';' && pt[j] != '\n' by {
                match st.quoting {
                    Quoting::Bytes => {
                        if s[j] == '"' || s[j] == ';' || s[j] == '\n' {
                            let b = lemma_ascii_byte(s, j);
                            assert(value_unsafe_byte(encode_utf8(s)[b]));
                        }
                    },
                    Quoting::Parsed => {
                        assert(!value_unsafe_char(s[j]));
                    },
                }
            }
        },
        _ => {},
    }
}

/// Scanning passes over the text of a primitive.
pub proof fn lemma_min_primitive(t: Seq<char>, i: int, st: Style, v: SpecValue)
    requires
        reads_back(st, v),
        0 <= i,
        i + primitive_text(st, v).len() <= t.len(),
        t.subrange(i, i + primitive_text(st, v).len()) == primitive_text(st, v),
    ensures
        min_scan(t, i, 0, false, 0, Seq::empty()) == min_scan(
            t,
            i + primitive_text(st, v).len(),
            0,
            false,
            0,
            Seq::empty(),
        ),
{
    let pt = primitive_text(st, v);
    if v is Str && !safe_unquoted(st, v->Str_0) {
        lemma_min_quoted(t, i, v->Str_0);
    } else {
        lemma_plain_primitive_chars(st, v);
        assert forall|k: int| i <= k < i + pt.len() implies #[trigger] t[k] != '"' && t[k] != ';' by {
            assert(t.subrange(i, i + pt.len())[k - i] == pt[k - i]);
        }
        lemma_min_plain(t, i, i + pt.len());
    }
}

/// Scanning passes over the text of a key.
pub proof fn lemma_min_key(t: Seq<char>, i: int, k: Seq<char>)
    requires
        0 <= i,
        i + key_text(k).len() <= t.len(),
        t.subrange(i, i + key_text(k).len()) == key_text(k),
    ensures
        min_scan(t, i, 0, false, 0, Seq::empty()) == min_scan(
            t,
            i + key_text(k).len(),
            0,
            false,
            0,
            Seq::empty(),
        ),
{
    let kt = key_text(k);
    if valid_unquoted_key(k) {
        lemma_unquoted_key_chars(k);
        assert forall|x: int| i <= x < i + kt.len() implies #[trigger] t[x] != '"' && t[x] != ';' by {
            assert(t.subrange(i, i + kt.len())[x - i] == kt[x - i]);
            assert(!key_unsafe_char(k[x - i]));
        }
        lemma_min_plain(t, i, i + kt.len());
    } else {
        lemma_min_quoted(t, i, k);
    }
}

/// Scanning passes over items written from the first on, to the end.
proof fn lemma_min_items(t: Seq<char>, i: int, st: Style, a: Seq<SpecValue>)
    requires
        st.delimiter == ',',
        a.len() > 0,
        forall|k: int| 0 <= k < a.len() ==> item_reads_back(st, #[trigger] a[k]),
        0 <= i <= t.len(),
        t.subrange(i, t.len() as int) == items_from(st, a),
    ensures
        min_scan(t, i, 0, false, 0, Seq::empty()) == min_scan(
            t,
            t.len() as int,
            0,
            false,
            0,
            Seq::empty(),
        ),
    decreases a.len(),
{
    let x = a[0];
    let pt = primitive_text(st, x);
    let n = pt.len() as int;
    assert(item_reads_back(st, x));
    let rest_text = t.subrange(i, t.len() as int);
    assert(n <= rest_text.len() && rest_text.subrange(0, n) == pt) by {
        if a.len() == 1 {
            assert(rest_text == pt);
        } else {
            assert(rest_text == pt + seq![st.delimiter, ' '] + items_from(st, a.drop_first()));
        }
        assert(rest_text.subrange(0, n) =~= pt);
    }
    assert(t.subrange(i, i + n) =~= pt) by {
        assert forall|k: int| 0 <= k < n implies t[i + k] == pt[k] by {
            assert(rest_text[k] == t[i + k]);
            assert(rest_text.subrange(0, n)[k] == rest_text[k]);
        }
    }
    lemma_min_primitive(t, i, st, x);
    if a.len() == 1 {
        assert(i + n == t.len());
    } else {
        let r = a.drop_first();
        assert(rest_text == pt + seq![st.delimiter, ' '] + items_from(st, r));
        assert(t[i + n] == ',') by {
            assert(rest_text[n] == ',');
        }
        assert(t[i + n + 1] == ' ') by {
            assert(rest_text[n + 1] == ' ');
        }
        lemma_min_plain(t, i + n, i + n + 2);
        assert(t.subrange(i + n + 2, t.len() as int) =~= items_from(st, r)) by {
            assert forall|k: int| 0 <= k < t.len() - (i + n + 2) implies t.subrange(
                i + n + 2,
                t.len() as int,
            )[k] == items_from(st, r)[k] by {
                assert(rest_text[n + 2 + k] == t[i + n + 2 + k]);
            }
        }
        assert forall|k: int| 0 <= k < r.len() implies item_reads_back(st, #[trigger] r[k]) by {
            assert(r[k] == a[k + 1]);
        }
        lemma_min_items(t, i + n + 2, st, r);
    }
}

/// Scanning passes through the line of an entry, `key: value`, whose value is
/// a primitive that reads back or an empty object or array.
pub proof fn lemma_entry_line_passes(k: Seq<char>, st: Style, v: SpecValue, tail: Seq<char>)
    requires
        tail == (match v {
            SpecValue::Object(_) => seq![' ', '{', '}'],
            SpecValue::Array(_) => seq![' ', '[', ']'],
            _ => seq![' '] + primitive_text(st, v),
        }),
        v.is_primitive() ==> reads_back(st, v),
    ensures
        min_passes(key_text(k) + seq![':'] + tail),
{
    let kt = key_text(k);
    let c = kt + seq![':'] + tail;
    let n = kt.len() as int;
    assert(c.subrange(0, n) =~= kt);
    lemma_min_key(c, 0, k);
    if v.is_primitive() {
        let pt = primitive_text(st, v);
        lemma_min_plain(c, n, n + 2);
        assert(c.subrange(n + 2, n + 2 + pt.len()) =~= pt);
        lemma_min_primitive(c, n + 2, st, v);
    } else {
        lemma_min_plain(c, n, c.len() as int);
    }
}

/// Scanning passes through the line of an inline array.
pub proof fn lemma_array_line_passes(kt: Seq<char>, key: Option<Seq<char>>, st: Style, a: Seq<SpecValue>)
    requires
        st.delimiter == ',',
        a.len() > 0,
        forall|i: int| 0 <= i < a.len() ==> item_reads_back(st, #[trigger] a[i]),
        key is None ==> kt.len() == 0,
        key is Some ==> kt == key_text(key->0),
    ensures
        min_passes(array_line(kt, st, a)),
{
    let c = array_line(kt, st, a);
    let n = a.len();
    let nt = nat_text(n);
    lemma_nat_text(n);
    assert(int_text(n as int) == nt);
    let p = kt.len() as int;
    let q = p + 1 + nt.len();
    let items = items_text(st, a);
    lemma_items_text_from(st, a);
    assert(c.len() == q + 3 + items.len());
    if key is Some {
        assert(c.subrange(0, p) =~= kt);
        lemma_min_key(c, 0, key->0);
    }
    assert forall|x: int| p <= x < q + 3 implies #[trigger] c[x] != '"' && c[x] != ';' by {
        if p < x < q {
            assert(c[x] == nt[x - p - 1]);
        }
    }
    lemma_min_plain(c, p, q + 3);
    assert(c.subrange(q + 3, c.len() as int) =~= items_from(st, a));
    lemma_min_items(c, q + 3, st, a);
}

/// Scanning passes through the text of a primitive that reads back.
pub proof fn lemma_primitive_passes(st: Style, v: SpecValue)
    requires
        reads_back(st, v),
    ensures
        min_passes(primitive_text(st, v)),
{
    let pt = primitive_text(st, v);
    assert(pt.subrange(0, pt.len() as int) =~= pt);
    lemma_min_primitive(pt, 0, st, v);
}

} // verus!
