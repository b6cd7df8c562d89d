//! What the decoder reads back of what the encoder writes.
use vstd::prelude::*;
use vstd::utf8::{encode_scalar, encode_utf8};
use crate::format::{
    escape, escape_char, primitive_text, quoted, safe_unquoted, value_unsafe_byte, value_unsafe_char,
    Quoting, Style,
};
use crate::inline::{inline_value, primitive_of, starts_like_number};
use crate::syntax::{closing_quote, quote_scan, unescape, unescape_from, unescape_pair};
use crate::syntax::{
    decimal_value, digit_value, digits_end, float_literal, i64_literal, is_digit, parse_number,
};
use crate::text::{
    contains_char, digit_char, find_from, int_text, is_ws, lead_ws, lemma_find_from, nat_text,
    trail_ws, trim,
};
use crate::value::SpecValue;

verus! {

// ---------------------------------------------------------------------------
// Escaping
// ---------------------------------------------------------------------------
/// Escaping works character by character.
pub proof fn lemma_escape_concat(a: Seq<char>, b: Seq<char>)
    ensures
        escape(a + b) == escape(a) + escape(b),
    decreases b.len(),
{
    if b.len() == 0 {
        assert(a + b =~= a);
        assert(escape(b) =~= Seq::<char>::empty());
        assert(escape(a) + escape(b) =~= escape(a));
    } else {
        assert((a + b).drop_last() =~= a + b.drop_last());
        assert((a + b).last() == b.last());
        lemma_escape_concat(a, b.drop_last());
        assert(escape(a + b) =~= escape(a) + escape(b.drop_last()) + escape_char(b.last()));
    }
}

/// The escape of a nonempty string starts with the escape of its first character.
pub proof fn lemma_escape_first(s: Seq<char>)
    requires
        s.len() > 0,
    ensures
        escape(s) == escape_char(s[0]) + escape(s.drop_first()),
{
    let one = seq![s[0]];
    assert(s =~= one + s.drop_first());
    lemma_escape_concat(one, s.drop_first());
    assert(one.drop_last() =~= Seq::<char>::empty());
    assert(escape(one.drop_last()) =~= Seq::<char>::empty());
    assert(one.last() == s[0]);
    assert(escape(one) == escape(one.drop_last()) + escape_char(one.last()));
    assert(escape(one) =~= escape_char(s[0]));
}

/// The characters that escaping changes.
pub open spec fn escaped(c: char) -> bool {
    c == '\\' || c == '"' || c == '\n' || c == '\r' || c == '\t' || c == ';'
}

/// Scanning for a closing quote passes over an escaped string as a whole.
pub proof fn lemma_scan_escape(t: Seq<char>, i: int, s: Seq<char>)
    requires
        0 <= i,
        i + escape(s).len() < t.len(),
        t.subrange(i, i + escape(s).len()) == escape(s),
    ensures
        quote_scan(t, i) == quote_scan(t, i + escape(s).len()),
    decreases s.len(),
{
    if s.len() > 0 {
        lemma_escape_first(s);
        let e = escape_char(s[0]);
        let rest = s.drop_first();
        assert(escape(s).len() == e.len() + escape(rest).len());
        assert(t.subrange(i + e.len(), i + e.len() + escape(rest).len()) =~= escape(rest)) by {
            assert forall|k: int| 0 <= k < escape(rest).len() implies t[i + e.len() + k] == escape(
                rest,
            )[k] by {
                assert(t.subrange(i, i + escape(s).len())[e.len() + k] == escape(s)[e.len() + k]);
            }
        }
        assert(t[i] == escape(s)[0]) by {
            assert(t.subrange(i, i + escape(s).len())[0] == escape(s)[0]);
        }
        if escaped(s[0]) {
            assert(e.len() == 2);
            assert(t[i] == '\\');
        } else {
            assert(e.len() == 1);
            assert(t[i] == s[0]);
        }
        lemma_scan_escape(t, i + e.len(), rest);
    } else {
        assert(escape(s).len() == 0);
    }
}

/// The closing quote of a quoted string is its last character.
pub proof fn lemma_closing_quote(s: Seq<char>)
    ensures
        closing_quote(quoted(s), 0) == Some((quoted(s).len() - 1) as int),
        quoted(s).subrange(1, quoted(s).len() - 1) == escape(s),
{
    let q = quoted(s);
    let n: int = escape(s).len() as int;
    assert(q.len() == n + 2);
    assert(q.subrange(1, 1 + n) =~= escape(s));
    lemma_scan_escape(q, 1, s);
    assert(q[n + 1] == '"');
}

// ---------------------------------------------------------------------------
// Unescaping what was escaped
// ---------------------------------------------------------------------------
/// Characters below 0x80, which UTF-8 writes as one byte of the same value.
pub open spec fn is_ascii_char(c: char) -> bool {
    (c as u32) < 0x80
}

pub open spec fn all_ascii(s: Seq<char>) -> bool {
    forall|i: int| 0 <= i < s.len() ==> is_ascii_char(#[trigger] s[i])
}

proof fn lemma_low_byte(v: u32)
    requires
        v <= 0x7F,
    ensures
        ((v & 0x7F) as u8) as u32 == v,
{
    assert(((v & 0x7F) as u8) as u32 == v) by (bit_vector)
        requires
            v <= 0x7F,
    ;
}

/// An ASCII character is written as one byte of its value.
pub proof fn lemma_encode_ascii_char(c: char)
    requires
        is_ascii_char(c),
    ensures
        encode_utf8(seq![c]) == seq![(c as u32) as u8],
        ((c as u32) as u8) as char == c,
{
    lemma_low_byte(c as u32);
    assert(seq![c].drop_first() =~= Seq::<char>::empty());
    assert(encode_utf8(seq![c].drop_first()) =~= Seq::<u8>::empty());
    assert(encode_utf8(seq![c]) =~= encode_scalar(c as u32));
    vstd::utf8::char_u32_cast(c, c as u32);
}

/// Unescaping after a prefix does not depend on the prefix.
pub proof fn lemma_unescape_shift(x: Seq<char>, y: Seq<char>, i: int)
    requires
        0 <= i,
    ensures
        unescape_from(x + y, x.len() + i) == unescape_from(y, i),
    decreases y.len() - i,
{
    let b = x + y;
    if i < y.len() {
        assert(b[x.len() + i] == y[i]);
        if y[i] == '\\' && i + 1 < y.len() {
            assert(b[x.len() + i + 1] == y[i + 1]);
            lemma_unescape_shift(x, y, i + 2);
        } else {
            lemma_unescape_shift(x, y, i + 1);
        }
    }
}

/// A string without characters to escape is its own escape.
pub proof fn lemma_escape_plain(s: Seq<char>)
    requires
        forall|i: int| 0 <= i < s.len() ==> !escaped(#[trigger] s[i]),
    ensures
        escape(s) == s,
    decreases s.len(),
{
    if s.len() > 0 {
        lemma_escape_plain(s.drop_last());
        assert(!escaped(s[s.len() - 1]));
        assert(escape(s) =~= s);
    } else {
        assert(escape(s) =~= s);
    }
}

/// Unescaping undoes escaping.
pub proof fn lemma_unescape_escape(s: Seq<char>)
    ensures
        unescape(escape(s)) == s,
    decreases s.len(),
{
    if s.len() == 0 {
        assert(escape(s) =~= Seq::<char>::empty());
        assert(unescape(escape(s)) =~= s);
    } else {
        let c = s[0];
        let rest = s.drop_first();
        lemma_escape_first(s);
        lemma_unescape_escape(rest);
        let x = escape_char(c);
        let y = escape(rest);
        assert(escape(s) == x + y);
        if escaped(c) {
            assert(x.len() == 2 && x[0] == '\\');
            assert(unescape_pair(x[1]) =~= seq![c]);
            lemma_unescape_shift(x, y, 0);
            assert((x + y)[0] == '\\' && (x + y)[1] == x[1]);
            assert(unescape_from(x + y, 0) == unescape_pair(x[1]) + unescape_from(x + y, 2));
        } else {
            assert(x =~= seq![c]);
            lemma_unescape_shift(x, y, 0);
            assert((x + y)[0] == c);
            assert(unescape_from(x + y, 0) == seq![c] + unescape_from(x + y, 1));
        }
        assert(s =~= seq![c] + rest);
    }
}

/// Escaping never shortens a string.
pub proof fn lemma_escape_len(s: Seq<char>)
    ensures
        escape(s).len() >= s.len(),
    decreases s.len(),
{
    if s.len() > 0 {
        lemma_escape_len(s.drop_last());
    }
}

// ---------------------------------------------------------------------------
// Trimming
// ---------------------------------------------------------------------------
/// A string that neither starts nor ends with whitespace is its own trim.
pub proof fn lemma_trim_id(s: Seq<char>)
    requires
        s.len() > 0,
        !is_ws(s[0]),
        !is_ws(s.last()),
    ensures
        trim(s) == s,
{
    assert(lead_ws(s, 0) == 0);
    assert(trail_ws(s, 0, s.len() as int) == s.len());
    assert(s.subrange(0, s.len() as int) =~= s);
}

// ---------------------------------------------------------------------------
// Integers
// ---------------------------------------------------------------------------
pub proof fn lemma_digit_char(d: nat)
    requires
        d < 10,
    ensures
        is_digit(digit_char(d)),
        digit_value(digit_char(d)) == d,
{
}

/// The decimal text of a natural number: digits only, reading back as the number.
pub proof fn lemma_nat_text(n: nat)
    ensures
        nat_text(n).len() > 0,
        forall|i: int| 0 <= i < nat_text(n).len() ==> is_digit(#[trigger] nat_text(n)[i]),
        decimal_value(nat_text(n)) == n,
    decreases n,
{
    if n < 10 {
        lemma_digit_char(n);
        let t = nat_text(n);
        assert(t.drop_last() =~= Seq::<char>::empty());
        assert(decimal_value(t.drop_last()) == 0);
        assert(decimal_value(t) == decimal_value(t.drop_last()) * 10 + digit_value(t.last()));
    } else {
        lemma_nat_text(n / 10);
        lemma_digit_char(n % 10);
        let t = nat_text(n);
        assert(t.drop_last() =~= nat_text(n / 10));
        assert(t.last() == digit_char(n % 10));
        assert(decimal_value(t) == decimal_value(t.drop_last()) * 10 + digit_value(t.last()));
        assert((n / 10) * 10 + n % 10 == n);
    }
}

/// The digit run of a sequence of digits covers it all.
pub proof fn lemma_digits_end_all(s: Seq<char>, i: int)
    requires
        0 <= i <= s.len(),
        forall|k: int| i <= k < s.len() ==> is_digit(#[trigger] s[k]),
    ensures
        digits_end(s, i) == s.len(),
    decreases s.len() - i,
{
    if i < s.len() {
        lemma_digits_end_all(s, i + 1);
    }
}

/// The decimal text of an `i64` reads back as that integer.
pub proof fn lemma_parse_int_text(n: i64)
    ensures
        parse_number(int_text(n as int)) == Some(SpecValue::Integer(n)),
{
    let t = int_text(n as int);
    if n < 0 {
        let m: nat = (-(n as int)) as nat;
        lemma_nat_text(m);
        let u = nat_text(m);
        assert(t == seq!['-'] + u);
        assert(t[0] == '-');
        assert forall|k: int| 1 <= k < t.len() implies is_digit(#[trigger] t[k]) by {
            assert(t[k] == u[k - 1]);
        }
        lemma_digits_end_all(t, 1);
        assert(t.subrange(1, t.len() as int) =~= u);
        assert(is_digit(t[1])) by {
            assert(t[1] == u[0]);
        }
        assert(m <= 0x8000_0000_0000_0000);
        assert((-(m as int)) as i64 == n);
    } else {
        let m: nat = n as nat;
        lemma_nat_text(m);
        assert(t == nat_text(m));
        lemma_digits_end_all(t, 0);
        assert(t.subrange(0, t.len() as int) =~= t);
        assert(is_digit(t[0]));
    }
}

// ---------------------------------------------------------------------------
// Primitives
// ---------------------------------------------------------------------------
/// Text that the number parser accepts is an `i64` or an `f64` literal.
pub proof fn lemma_parse_number_literal(t: Seq<char>)
    requires
        t.len() > 0,
        parse_number(t) is Some,
    ensures
        i64_literal(t) || float_literal(t),
{
}

/// The first UTF-8 byte of a string that starts with an ASCII character is
/// that character's value.
pub proof fn lemma_first_byte(s: Seq<char>)
    requires
        s.len() > 0,
        is_ascii_char(s[0]),
    ensures
        encode_utf8(s)[0] == (s[0] as u32) as u8,
        encode_utf8(s).len() > 0,
{
    assert(s =~= seq![s[0]] + s.drop_first());
    crate::text::lemma_encode_utf8_concat(seq![s[0]], s.drop_first());
    lemma_encode_ascii_char(s[0]);
}

/// A float whose text reads back as that float.
pub open spec fn float_reads_back(t: Seq<char>) -> bool {
    &&& t.len() > 0
    &&& trim(t) == t
    &&& starts_like_number(t[0])
    &&& parse_number(t) == Some(SpecValue::Float(t))
}

/// A primitive that reads back from its text: a float whose text reads back;
/// a string written without quotes that has no whitespace at its ends; any
/// string written with quotes.
pub open spec fn reads_back(st: Style, v: SpecValue) -> bool {
    match v {
        SpecValue::Float(t) => float_reads_back(t),
        SpecValue::Str(s) => safe_unquoted(st, s) ==> trim(s) == s,
        SpecValue::Array(_) => false,
        SpecValue::Object(_) => false,
        _ => true,
    }
}

/// A string written without quotes reads back as itself: as a primitive and
/// as an inline value, the decoder reads the text of a string that the
/// encoder leaves unquoted (and that has no whitespace at its ends) as that
/// string.
pub proof fn lemma_unquoted_reads_back(st: Style, s: Seq<char>)
    requires
        safe_unquoted(st, s),
        trim(s) == s,
    ensures
        primitive_of(s) == SpecValue::Str(s),
        inline_value(s) == SpecValue::Str(s),
{
    let b = encode_utf8(s);
    match st.quoting {
        Quoting::Bytes => {
            if s.len() == 0 {
                assert(b =~= Seq::<u8>::empty());
            }
            if is_ascii_char(s[0]) {
                lemma_first_byte(s);
                assert(!value_unsafe_byte(b[0]));
            }
            assert(s[0] != '"' && s[0] != '[' && s[0] != '{' && !starts_like_number(s[0]));
        },
        Quoting::Parsed => {
            assert(!value_unsafe_char(s[0]));
            if starts_like_number(s[0]) && parse_number(s) is Some {
                lemma_parse_number_literal(s);
            }
        },
    }
    assert(s != seq!['[', ']']);
    assert(s != seq!['{', '}']);
}

/// A quoted string reads back as the string.
proof fn lemma_quoted_reads_back(s: Seq<char>)
    ensures
        primitive_of(quoted(s)) == SpecValue::Str(s),
        inline_value(quoted(s)) == SpecValue::Str(s),
{
    let q = quoted(s);
    assert(q[0] == '"');
    assert(q.last() == '"');
    lemma_trim_id(q);
    lemma_closing_quote(s);
    lemma_unescape_escape(s);
    assert(q != seq!['[', ']']);
    assert(q != seq!['{', '}']);
}

/// One primitive, written and read back: the decoder reads the text that the
/// encoder writes for a primitive as that primitive, where the primitive
/// reads back (see `reads_back`).
pub proof fn lemma_primitive_round_trip(st: Style, v: SpecValue)
    requires
        reads_back(st, v),
    ensures
        primitive_of(primitive_text(st, v)) == v,
        inline_value(primitive_text(st, v)) == v,
        primitive_text(st, v).len() > 0,
        trim(primitive_text(st, v)) == primitive_text(st, v),
{
    match v {
        SpecValue::Null => {
            let t = seq!['n', 'u', 'l', 'l'];
            lemma_trim_id(t);
            assert(t != seq!['[', ']'] && t != seq!['{', '}']);
            assert(t != seq!['t', 'r', 'u', 'e'] && t != seq!['f', 'a', 'l', 's', 'e']);
        },
        SpecValue::Bool(x) => {
            if x {
                let t = seq!['t', 'r', 'u', 'e'];
                lemma_trim_id(t);
                assert(t != seq!['[', ']'] && t != seq!['{', '}']);
            } else {
                let t = seq!['f', 'a', 'l', 's', 'e'];
                lemma_trim_id(t);
                assert(t != seq!['[', ']'] && t != seq!['{', '}']);
                assert(t != seq!['t', 'r', 'u', 'e']);
            }
        },
        SpecValue::Integer(n) => {
            let t = int_text(n as int);
            lemma_parse_int_text(n);
            if n < 0 {
                lemma_nat_text((-(n as int)) as nat);
                assert(t.last() == nat_text((-(n as int)) as nat).last());
            } else {
                lemma_nat_text(n as nat);
            }
            assert(is_digit(t.last()));
            lemma_trim_id(t);
            assert(t != seq!['[', ']'] && t != seq!['{', '}']);
            assert(t != seq!['t', 'r', 'u', 'e'] && t != seq!['f', 'a', 'l', 's', 'e']);
            assert(t != seq!['n', 'u', 'l', 'l']);
        },
        SpecValue::Float(t) => {
            assert(t != seq!['[', ']'] && t != seq!['{', '}']);
            assert(t != seq!['t', 'r', 'u', 'e'] && t != seq!['f', 'a', 'l', 's', 'e']);
            assert(t != seq!['n', 'u', 'l', 'l']);
        },
        SpecValue::Str(s) => {
            if safe_unquoted(st, s) {
                lemma_unquoted_reads_back(st, s);
                if s.len() == 0 {
                    assert(encode_utf8(s) =~= Seq::<u8>::empty());
                }
            } else {
                lemma_quoted_reads_back(s);
                let q = quoted(s);
                assert(q[0] == '"' && q.last() == '"');
                lemma_trim_id(q);
            }
        },
        _ => {},
    }
}

} // verus!
