//! The encoder: a [`Value`] to SCON text.
use vstd::prelude::*;
use crate::format::{
    all_primitive, array_text, document_text, entries_height, entry_text, escape, fields_text,
    first_field_text, height, indent_text, item_text, items_expanded_text, items_text, key_text,
    keys_of, lemma_entries_height, lemma_seq_height, list_item_text, matches_fields, object_text,
    primitive_text, quoted, count_text, opt_key_text, row_text, rows_text, safe_unquoted, seq_height, string_text,
    tabular_fields, valid_unquoted_key, value_text, continuation_entry_text, continuation_text,
    delimiter_byte, key_unsafe_byte, value_unsafe_byte, value_unsafe_char, Flavor, Quoting, Style, loose_items_text,
};
use crate::syntax::{is_float_literal, is_i64_literal};
use crate::text::{chars_eq, chars_of, i64_text, int_text, push_char, push_chars, usize_text};
use crate::value::{
    lemma_view_values, map_get, view_value, view_values, SconMap, SpecValue,
    Value,
};

verus! {

/// Whether indentation up to `depth + 2 * h + 2` levels fits in a `usize`.
pub open spec fn indent_fits(ind: nat, depth: nat, h: nat) -> bool {
    ind * (depth + 2 * h + 2) <= usize::MAX
}

pub open spec fn opt_view(key: Option<&str>) -> Option<Seq<char>> {
    match key {
        Some(k) => Some(k@),
        None => None,
    }
}

/// The views of a sequence of strings.
pub open spec fn str_views(s: Seq<String>) -> Seq<Seq<char>> {
    Seq::new(s.len(), |i: int| s[i]@)
}

pub proof fn lemma_mul_mono(a: nat, b: nat, c: nat)
    requires
        b <= c,
    ensures
        a * b <= a * c,
{
    assert(a * b <= a * c) by (nonlinear_arith)
        requires
            b <= c,
    ;
}

/// Indentation fits at every offset up to `2 * h + 2` levels below `depth`.
pub proof fn lemma_fits(ind: nat, depth: nat, h: nat, k: nat)
    requires
        ind >= 1,
        indent_fits(ind, depth, h),
        k <= 2 * h + 2,
    ensures
        ind * (depth + k) <= usize::MAX,
        depth + k <= usize::MAX,
{
    lemma_mul_mono(ind, depth + k, depth + 2 * h + 2);
    assert(depth + k <= ind * (depth + k)) by (nonlinear_arith)
        requires
            ind >= 1,
    ;
}

/// A child `dd` levels deeper with height `h2` still fits.
pub proof fn lemma_fits_child(ind: nat, depth: nat, h: nat, dd: nat, h2: nat)
    requires
        indent_fits(ind, depth, h),
        dd + 2 * h2 <= 2 * h,
    ensures
        indent_fits(ind, depth + dd, h2),
{
    lemma_mul_mono(ind, depth + dd + 2 * h2 + 2, depth + 2 * h + 2);
}

/// Encodes values as SCON, with an indentation width, a delimiter and a rule
/// for quoting strings.
pub struct Encoder {
    indent: usize,
    delimiter: char,
    quoting: Quoting,
    flavor: Flavor,
}

impl Encoder {
    /// At least one space per level.
    #[verifier::type_invariant]
    spec fn wf(&self) -> bool {
        self.indent >= 1
    }

    /// The number of spaces per level.
    pub closed spec fn spec_indent(&self) -> nat {
        self.indent as nat
    }

    /// There is at least one space per level.
    pub(crate) fn indent_is_positive(&self)
        ensures
            self.spec_indent() >= 1,
    {
        proof {
            use_type_invariant(self);
        }
    }

    /// The delimiter between the items of inline arrays and tabular rows.
    pub closed spec fn spec_delimiter(&self) -> char {
        self.delimiter
    }

    /// The rule that decides which strings are quoted.
    pub closed spec fn spec_quoting(&self) -> Quoting {
        self.quoting
    }

    /// How arrays without a short form are written.
    pub closed spec fn spec_flavor(&self) -> Flavor {
        self.flavor
    }

    /// The delimiter, the quoting rule and the flavor.
    pub open spec fn spec_style(&self) -> Style {
        Style {
            delimiter: self.spec_delimiter(),
            quoting: self.spec_quoting(),
            flavor: self.spec_flavor(),
        }
    }

    /// An encoder with one space per level, `,` as delimiter, and strings
    /// quoted by their bytes.
    pub fn new() -> (e: Encoder)
        ensures
            e.spec_indent() == 1,
            e.spec_delimiter() == ',',
            e.spec_quoting() == Quoting::Bytes,
            e.spec_flavor() == Flavor::Standard,
    {
        Encoder { indent: 1, delimiter: ',', quoting: Quoting::Bytes, flavor: Flavor::Standard }
    }

    /// The same encoder with the flavor `flavor`.
    pub(crate) fn with_flavor(self, flavor: Flavor) -> (e: Encoder)
        ensures
            e.spec_indent() == self.spec_indent(),
            e.spec_delimiter() == self.spec_delimiter(),
            e.spec_quoting() == self.spec_quoting(),
            e.spec_flavor() == flavor,
    {
        proof {
            use_type_invariant(&self);
        }
        Encoder { indent: self.indent, delimiter: self.delimiter, quoting: self.quoting, flavor }
    }

    /// The same encoder with the quoting rule `quoting`.
    pub(crate) fn with_quoting(self, quoting: Quoting) -> (e: Encoder)
        ensures
            e.spec_indent() == self.spec_indent(),
            e.spec_delimiter() == self.spec_delimiter(),
            e.spec_quoting() == quoting,
            e.spec_flavor() == self.spec_flavor(),
    {
        proof {
            use_type_invariant(&self);
        }
        Encoder { indent: self.indent, delimiter: self.delimiter, quoting, flavor: self.flavor }
    }

    /// The same encoder with `indent` spaces per level (at least one).
    pub fn with_indent(self, indent: usize) -> (e: Encoder)
        ensures
            e.spec_indent() == if indent < 1 {
                1
            } else {
                indent as nat
            },
            e.spec_delimiter() == self.spec_delimiter(),
            e.spec_quoting() == self.spec_quoting(),
            e.spec_flavor() == self.spec_flavor(),
    {
        Encoder {
            indent: if indent < 1 {
                1
            } else {
                indent
            },
            delimiter: self.delimiter,
            quoting: self.quoting,
            flavor: self.flavor,
        }
    }

    /// The same encoder with `delimiter`.
    pub fn with_delimiter(self, delimiter: char) -> (e: Encoder)
        ensures
            e.spec_indent() == self.spec_indent(),
            e.spec_delimiter() == delimiter,
            e.spec_quoting() == self.spec_quoting(),
            e.spec_flavor() == self.spec_flavor(),
    {
        proof {
            use_type_invariant(&self);
        }
        Encoder { indent: self.indent, delimiter, quoting: self.quoting, flavor: self.flavor }
    }

    /// The SCON text of `data`.
    pub fn encode(&self, data: &Value) -> (r: String)
        requires
            indent_fits(self.spec_indent(), 0, height(data@)),
        ensures
            r@ == document_text(self.spec_indent(), self.spec_style(), data@),
    {
        let mut buf = String::new();
        self.encode_to(data, &mut buf);
        assert(buf@ =~= document_text(self.spec_indent(), self.spec_style(), data@));
        buf
    }

    /// Appends the SCON text of `data` to `buf`.
    pub fn encode_to(&self, data: &Value, buf: &mut String)
        requires
            indent_fits(self.spec_indent(), 0, height(data@)),
        ensures
            final(buf)@ == old(buf)@ + document_text(self.spec_indent(), self.spec_style(), data@),
    {
        proof {
            use_type_invariant(self);
        }
        match data {
            Value::Object(obj) if obj.is_empty() => {
                push_chars(buf, &['{', '}']);
            },
            Value::Array(arr) if arr.len() == 0 => {
                proof {
                    lemma_view_values(arr@);
                }
                push_chars(buf, &['[', ']']);
            },
            _ => {
                proof {
                    match data {
                        Value::Array(arr) => lemma_view_values(arr@),
                        _ => {},
                    }
                }
                self.encode_value(data, 0, buf);
            },
        }
    }

    fn encode_value(&self, value: &Value, depth: usize, buf: &mut String)
        requires
            self.indent >= 1,
            indent_fits(self.indent as nat, depth as nat, height(value@)),
        ensures
            final(buf)@ == old(buf)@ + value_text(self.indent as nat, self.spec_style(), value@, depth as nat),
    {
        match value {
            Value::Object(obj) => self.encode_object(obj, depth, buf),
            Value::Array(arr) => self.encode_array_value(None, arr, depth, buf),
            _ => {
                self.write_primitive(value, buf);
            },
        }
    }

    fn encode_object(&self, obj: &SconMap, depth: usize, buf: &mut String)
        requires
            self.indent >= 1,
            indent_fits(self.indent as nat, depth as nat, height(SpecValue::Object(obj@))),
        ensures
            final(buf)@ == old(buf)@ + object_text(self.indent as nat, self.spec_style(), obj@, depth as nat),
        decreases height(SpecValue::Object(obj@)), 1int,
    {
        let ghost ind = self.indent as nat;
        let ghost d = self.spec_style();
        let ghost h = height(SpecValue::Object(obj@));
        proof {
            lemma_entries_height(obj@);
        }
        let n = obj.len();
        let mut i: usize = 0;
        while i < n
            invariant
                n == obj@.len(),
                i <= n,
                ind == self.indent,
                d == self.spec_style(),
                h == height(SpecValue::Object(obj@)),
                indent_fits(ind, depth as nat, h),
                self.indent >= 1,
                forall|j: int| 0 <= j < obj@.len() ==> height(#[trigger] obj@[j].1) <= entries_height(obj@),
                buf@ == old(buf)@ + object_text(ind, d, obj@.take(i as int), depth as nat),
            decreases n - i,
        {
            let ghost before = buf@;
            if i > 0 {
                push_char(buf, '\n');
            }
            let ghost mid = buf@;
            let (key, val) = obj.entry(i);
            proof {
                assert(obj@[i as int] == (key@, val@));
                assert(height(obj@[i as int].1) <= entries_height(obj@));
                lemma_fits_child(ind, depth as nat, h, 0, height(val@) + 1);
            }
            self.write_entry(key, val, depth, buf);
            proof {
                assert(obj@.take(i + 1).drop_last() =~= obj@.take(i as int));
                assert(obj@.take(i + 1).last() == obj@[i as int]);
            }
            i = i + 1;
        }
        assert(obj@.take(n as int) =~= obj@);
    }

    /// One entry of an object.
    fn write_entry(&self, key: &str, val: &Value, depth: usize, buf: &mut String)
        requires
            self.indent >= 1,
            indent_fits(self.indent as nat, depth as nat, height(val@) + 1),
        ensures
            final(buf)@ == old(buf)@ + entry_text(self.indent as nat, self.spec_style(), key@, val@, depth as nat),
        decreases height(val@), 2int,
    {
        let ghost ind = self.indent as nat;
        proof {
            lemma_fits(ind, depth as nat, height(val@) + 1, 0);
            lemma_fits(ind, depth as nat, height(val@) + 1, 1);
            lemma_fits_child(ind, depth as nat, height(val@) + 1, 1, height(val@));
            lemma_fits_child(ind, depth as nat, height(val@) + 1, 0, height(val@));
        }
        match val {
            Value::Object(inner) if inner.is_empty() => {
                self.write_indent(depth, buf);
                self.write_key(key, buf);
                push_chars(buf, &[':', ' ', '{', '}']);
            },
            Value::Array(arr) if arr.len() == 0 => {
                proof {
                    lemma_view_values(arr@);
                }
                self.write_indent(depth, buf);
                self.write_key(key, buf);
                push_chars(buf, &[':', ' ', '[', ']']);
            },
            v if v.is_primitive() => {
                self.write_indent(depth, buf);
                self.write_key(key, buf);
                push_chars(buf, &[':', ' ']);
                self.write_primitive(v, buf);
            },
            Value::Array(arr) => {
                proof {
                    lemma_view_values(arr@);
                }
                self.encode_array_value(Some(key), arr, depth, buf);
            },
            Value::Object(inner) => {
                self.write_indent(depth, buf);
                self.write_key(key, buf);
                push_chars(buf, &[':', '\n']);
                self.encode_object(inner, depth + 1, buf);
            },
            _ => {},
        }
        assert(buf@ =~= old(buf)@ + entry_text(ind, self.spec_style(), key@, val@, depth as nat));
    }

    fn encode_array_value(
        &self,
        key: Option<&str>,
        arr: &Vec<Value>,
        depth: usize,
        buf: &mut String,
    )
        requires
            self.indent >= 1,
            indent_fits(self.indent as nat, depth as nat, height(SpecValue::Array(view_values(arr@)))),
        ensures
            final(buf)@ == old(buf)@ + array_text(
                self.indent as nat,
                self.spec_style(),
                opt_view(key),
                view_values(arr@),
                depth as nat,
            ),
        decreases height(SpecValue::Array(view_values(arr@))), 1int,
    {
        let ghost ind = self.indent as nat;
        let ghost d = self.spec_style();
        let ghost a = view_values(arr@);
        let ghost h = height(SpecValue::Array(a));
        proof {
            lemma_view_values(arr@);
            lemma_seq_height(a);
            lemma_fits(ind, depth as nat, h, 0);
            lemma_fits(ind, depth as nat, h, 1);
        }
        let len = arr.len();
        if len == 0 {
            self.write_indent(depth, buf);
            match key {
                Some(k) => {
                    self.write_key(k, buf);
                    push_chars(buf, &[':', ' ', '[', ']']);
                },
                None => {
                    push_chars(buf, &['[', ']']);
                },
            }
            return ;
        }
        // Array of primitives: inline

        if self.all_primitive_values(arr) {
            self.write_array_head(key, len, depth, buf);
            push_chars(buf, &[':', ' ']);
            self.write_inline_items(arr, buf);
            return ;
        }
        // Array of objects with the same keys: tabular

        if let Some(fields) = self.extract_tabular_fields(arr) {
            self.write_array_head(key, len, depth, buf);
            push_char(buf, '{');
            self.write_fields(&fields, buf);
            push_chars(buf, &['}', ':']);
            self.write_rows(&fields, arr, depth, buf);
            return ;
        }
        // Mixed: expanded

        self.write_array_head(key, len, depth, buf);
        push_char(buf, ':');
        self.write_expanded_items(arr, depth, buf);
    }

    /// The indentation, optional key and `[n]` that start an array.
    fn write_array_head(&self, key: Option<&str>, len: usize, depth: usize, buf: &mut String)
        requires
            self.indent * depth <= usize::MAX,
        ensures
            final(buf)@ == old(buf)@ + indent_text(self.indent as nat, depth as nat) + opt_key_text(
                opt_view(key),
            ) + count_text(len as nat),
    {
        self.write_indent(depth, buf);
        if let Some(k) = key {
            self.write_key(k, buf);
        }
        push_char(buf, '[');
        self.write_usize(len, buf);
        push_char(buf, ']');
        assert(buf@ =~= old(buf)@ + indent_text(self.indent as nat, depth as nat) + opt_key_text(
            opt_view(key),
        ) + count_text(len as nat));
    }

    /// The items of an expanded array, each on a new line.
    fn write_expanded_items(&self, arr: &Vec<Value>, depth: usize, buf: &mut String)
        requires
            self.indent >= 1,
            indent_fits(self.indent as nat, depth as nat, height(SpecValue::Array(view_values(arr@)))),
        ensures
            final(buf)@ == old(buf)@ + items_expanded_text(
                self.indent as nat,
                self.spec_style(),
                view_values(arr@),
                depth as nat,
            ),
        decreases height(SpecValue::Array(view_values(arr@))), 0int,
    {
        let ghost ind = self.indent as nat;
        let ghost d = self.spec_style();
        let ghost a = view_values(arr@);
        let ghost h = height(SpecValue::Array(a));
        proof {
            lemma_view_values(arr@);
            lemma_seq_height(a);
        }
        let len = arr.len();
        let mut i: usize = 0;
        while i < len
            invariant
                len == arr@.len() == a.len(),
                i <= len,
                ind == self.indent,
                d == self.spec_style(),
                a == view_values(arr@),
                h == height(SpecValue::Array(a)),
                indent_fits(ind, depth as nat, h),
                self.indent >= 1,
                forall|j: int| 0 <= j < a.len() ==> #[trigger] a[j] == view_value(arr@[j]),
                forall|j: int| 0 <= j < a.len() ==> height(#[trigger] a[j]) <= seq_height(a),
                buf@ == old(buf)@ + items_expanded_text(ind, d, a.take(i as int), depth as nat),
            decreases len - i,
        {
            let item = &arr[i];
            let ghost mid = buf@;
            push_char(buf, '\n');
            proof {
                assert(a[i as int] == item@);
                assert(height(a[i as int]) <= seq_height(a));
                lemma_fits_child(ind, depth as nat, h, 0, height(item@) + 1);
            }
            self.write_expanded_item(item, depth, buf);
            proof {
                assert(buf@ =~= mid + seq!['\n'] + item_text(ind, d, item@, depth as nat));
                assert(a.take(i + 1).drop_last() =~= a.take(i as int));
                assert(a.take(i + 1).last() == a[i as int]);
            }
            i = i + 1;
        }
        proof {
            assert(a.take(len as int) =~= a);
        }
    }

    /// One item of an expanded array, one level deeper than the array.
    fn write_expanded_item(&self, item: &Value, depth: usize, buf: &mut String)
        requires
            self.indent >= 1,
            indent_fits(self.indent as nat, depth as nat, height(item@) + 1),
        ensures
            final(buf)@ == old(buf)@ + item_text(self.indent as nat, self.spec_style(), item@, depth as nat),
        decreases height(item@), 2int,
    {
        let ghost ind = self.indent as nat;
        proof {
            lemma_fits(ind, depth as nat, height(item@) + 1, 1);
            lemma_fits_child(ind, depth as nat, height(item@) + 1, 1, height(item@));
        }
        match item {
            v if v.is_primitive() => {
                self.write_indent(depth + 1, buf);
                push_chars(buf, &['-', ' ']);
                self.write_primitive(v, buf);
            },
            Value::Object(obj) if obj.is_empty() => {
                self.write_indent(depth + 1, buf);
                push_chars(buf, &['-', ' ', '{', '}']);
            },
            Value::Object(obj) => {
                self.encode_object_as_list_item(obj, depth + 1, buf);
            },
            Value::Array(inner) if inner.len() == 0 => {
                proof {
                    lemma_view_values(inner@);
                }
                self.write_indent(depth + 1, buf);
                push_chars(buf, &['-', ' ', '[', ']']);
            },
            Value::Array(inner) if self.all_primitive_values(inner) => {
                proof {
                    lemma_view_values(inner@);
                }
                self.write_indent(depth + 1, buf);
                push_chars(buf, &['-', ' ', '[']);
                self.write_usize(inner.len(), buf);
                push_chars(buf, &[']', ':', ' ']);
                self.write_inline_items(inner, buf);
            },
            Value::Array(inner) => {
                proof {
                    lemma_view_values(inner@);
                }
                match self.flavor {
                    Flavor::Standard => {},
                    Flavor::Script => {
                        self.write_indent(depth + 1, buf);
                        push_chars(buf, &['-', ' ', '[']);
                        self.write_usize(inner.len(), buf);
                        push_chars(buf, &[']', ':', ' ']);
                        self.write_loose_items(inner, buf);
                    },
                }
            },
            _ => {},
        }
        assert(buf@ =~= old(buf)@ + item_text(ind, self.spec_style(), item@, depth as nat));
    }

    fn encode_object_as_list_item(&self, obj: &SconMap, depth: usize, buf: &mut String)
        requires
            self.indent >= 1,
            indent_fits(self.indent as nat, depth as nat, height(SpecValue::Object(obj@))),
        ensures
            final(buf)@ == old(buf)@ + list_item_text(self.indent as nat, self.spec_style(), obj@, depth as nat),
        decreases height(SpecValue::Object(obj@)), 1int,
    {
        let ghost ind = self.indent as nat;
        let ghost d = self.spec_style();
        let ghost m = obj@;
        let ghost h = height(SpecValue::Object(m));
        proof {
            lemma_entries_height(obj@);
            lemma_fits(ind, depth as nat, h, 0);
        }
        if obj.is_empty() {
            self.write_indent(depth, buf);
            push_chars(buf, &['-', ' ']);
            return ;
        }
        let (first_key, first_val) = obj.entry(0);
        proof {
            assert(m[0] == (first_key@, first_val@));
            assert(height(m[0].1) <= entries_height(m));
            lemma_fits_child(ind, depth as nat, h, 0, height(first_val@) + 1);
        }
        self.write_indent(depth, buf);
        push_chars(buf, &['-', ' ']);
        self.write_key(first_key, buf);
        self.write_first_field(first_val, depth, buf);
        let ghost head = buf@;
        // Continuation fields
        let n = obj.len();
        let mut i: usize = 1;
        while i < n
            invariant
                n == m.len(),
                1 <= i <= n,
                m == obj@,
                ind == self.indent,
                d == self.spec_style(),
                h == height(SpecValue::Object(m)),
                indent_fits(ind, depth as nat, h),
                self.indent >= 1,
                forall|j: int| 0 <= j < m.len() ==> height(#[trigger] m[j].1) <= entries_height(m),
                buf@ == head + continuation_text(ind, d, m.subrange(1, i as int), depth as nat),
            decreases n - i,
        {
            let (key, val) = obj.entry(i);
            let ghost mid = buf@;
            push_char(buf, '\n');
            proof {
                assert(m[i as int] == (key@, val@));
                assert(height(m[i as int].1) <= entries_height(m));
                lemma_fits_child(ind, depth as nat, h, 0, height(val@) + 1);
            }
            self.write_continuation_entry(key, val, depth, buf);
            proof {
                assert(buf@ =~= mid + seq!['\n'] + continuation_entry_text(
                    ind,
                    d,
                    key@,
                    val@,
                    depth as nat,
                ));
                assert(m.subrange(1, i + 1).drop_last() =~= m.subrange(1, i as int));
                assert(m.subrange(1, i + 1).last() == m[i as int]);
            }
            i = i + 1;
        }
        proof {
            assert(m.subrange(1, n as int) =~= m.drop_first());
            assert(buf@ =~= old(buf)@ + list_item_text(ind, d, m, depth as nat));
        }
    }

    /// What follows the key of the first entry of a list item.
    fn write_first_field(&self, val: &Value, depth: usize, buf: &mut String)
        requires
            self.indent >= 1,
            indent_fits(self.indent as nat, depth as nat, height(val@) + 1),
        ensures
            final(buf)@ == old(buf)@ + first_field_text(self.indent as nat, self.spec_style(), val@, depth as nat),
        decreases height(val@), 2int,
    {
        let ghost ind = self.indent as nat;
        proof {
            lemma_fits(ind, depth as nat, height(val@) + 1, 2);
            lemma_fits_child(ind, depth as nat, height(val@) + 1, 2, height(val@));
        }
        match val {
            v if v.is_primitive() => {
                push_chars(buf, &[':', ' ']);
                self.write_primitive(v, buf);
            },
            Value::Array(arr) if arr.len() == 0 => {
                proof {
                    lemma_view_values(arr@);
                }
                push_chars(buf, &[':', ' ', '[', ']']);
            },
            Value::Array(arr) if self.all_primitive_values(arr) => {
                proof {
                    lemma_view_values(arr@);
                }
                push_char(buf, '[');
                self.write_usize(arr.len(), buf);
                push_chars(buf, &[']', ':', ' ']);
                self.write_inline_items(arr, buf);
            },
            Value::Object(inner) if inner.is_empty() => {
                push_chars(buf, &[':', ' ', '{', '}']);
            },
            Value::Object(inner) => {
                push_chars(buf, &[':', '\n']);
                self.encode_object(inner, depth + 2, buf);
            },
            Value::Array(arr) => {
                proof {
                    lemma_view_values(arr@);
                }
                match self.flavor {
                    Flavor::Standard => {
                        push_char(buf, ':');
                    },
                    Flavor::Script => {
                        push_char(buf, '[');
                        self.write_usize(arr.len(), buf);
                        push_chars(buf, &[']', ':']);
                    },
                }
            },
            _ => {},
        }
        assert(buf@ =~= old(buf)@ + first_field_text(ind, self.spec_style(), val@, depth as nat));
    }

    /// An entry of a list item after the first, one level deeper than the item.
    fn write_continuation_entry(&self, key: &str, val: &Value, depth: usize, buf: &mut String)
        requires
            self.indent >= 1,
            indent_fits(self.indent as nat, depth as nat, height(val@) + 1),
        ensures
            final(buf)@ == old(buf)@ + continuation_entry_text(
                self.indent as nat,
                self.spec_style(),
                key@,
                val@,
                depth as nat,
            ),
        decreases height(val@), 2int,
    {
        let ghost ind = self.indent as nat;
        proof {
            lemma_fits(ind, depth as nat, height(val@) + 1, 1);
            lemma_fits(ind, depth as nat, height(val@) + 1, 2);
            lemma_fits_child(ind, depth as nat, height(val@) + 1, 1, height(val@));
            lemma_fits_child(ind, depth as nat, height(val@) + 1, 2, height(val@));
        }
        match val {
            v if v.is_primitive() => {
                self.write_indent(depth + 1, buf);
                self.write_key(key, buf);
                push_chars(buf, &[':', ' ']);
                self.write_primitive(v, buf);
            },
            Value::Array(arr) if arr.len() == 0 => {
                proof {
                    lemma_view_values(arr@);
                }
                self.write_indent(depth + 1, buf);
                self.write_key(key, buf);
                push_chars(buf, &[':', ' ', '[', ']']);
            },
            Value::Array(arr) => {
                proof {
                    lemma_view_values(arr@);
                }
                self.encode_array_value(Some(key), arr, depth + 1, buf);
            },
            Value::Object(inner) if inner.is_empty() => {
                self.write_indent(depth + 1, buf);
                self.write_key(key, buf);
                push_chars(buf, &[':', ' ', '{', '}']);
            },
            Value::Object(inner) => {
                self.write_indent(depth + 1, buf);
                self.write_key(key, buf);
                push_chars(buf, &[':', '\n']);
                self.encode_object(inner, depth + 2, buf);
            },
            _ => {},
        }
        assert(buf@ =~= old(buf)@ + continuation_entry_text(ind, self.spec_style(), key@, val@, depth as nat));
    }

    /// Whether every item is a primitive.
    fn all_primitive_values(&self, arr: &Vec<Value>) -> (r: bool)
        ensures
            r == all_primitive(view_values(arr@)),
    {
        proof {
            lemma_view_values(arr@);
        }
        let mut i: usize = 0;
        while i < arr.len()
            invariant
                i <= arr@.len(),
                view_values(arr@).len() == arr@.len(),
                forall|j: int| 0 <= j < arr@.len() ==> #[trigger] view_values(arr@)[j] == view_value(arr@[j]),
                forall|j: int| 0 <= j < i ==> (#[trigger] view_values(arr@)[j]).is_primitive(),
            decreases arr.len() - i,
        {
            if !arr[i].is_primitive() {
                assert(!view_values(arr@)[i as int].is_primitive());
                return false;
            }
            i = i + 1;
        }
        true
    }

    /// The primitives of `arr`, separated by the delimiter and a space.
    fn write_inline_items(&self, arr: &Vec<Value>, buf: &mut String)
        ensures
            final(buf)@ == old(buf)@ + items_text(self.spec_style(), view_values(arr@)),
    {
        let ghost a = view_values(arr@);
        proof {
            lemma_view_values(arr@);
        }
        let mut i: usize = 0;
        while i < arr.len()
            invariant
                i <= arr@.len() == a.len(),
                a == view_values(arr@),
                forall|j: int| 0 <= j < a.len() ==> #[trigger] a[j] == view_value(arr@[j]),
                buf@ == old(buf)@ + items_text(self.spec_style(), a.take(i as int)),
            decreases arr.len() - i,
        {
            let ghost before = buf@;
            if i > 0 {
                push_char(buf, self.delimiter);
                push_char(buf, ' ');
            }
            self.write_primitive(&arr[i], buf);
            proof {
                assert(a.take(i + 1).drop_last() =~= a.take(i as int));
                assert(a.take(i + 1).last() == a[i as int]);
                if i == 0 {
                    assert(buf@ =~= old(buf)@ + items_text(self.spec_style(), a.take(1)));
                } else {
                    assert(buf@ =~= old(buf)@ + items_text(self.spec_style(), a.take(i + 1)));
                }
            }
            i = i + 1;
        }
        assert(a.take(arr@.len() as int) =~= a);
    }

    /// The items of `arr`, separated by the delimiter and a space, `null`
    /// standing for an array or an object.
    fn write_loose_items(&self, arr: &Vec<Value>, buf: &mut String)
        ensures
            final(buf)@ == old(buf)@ + loose_items_text(self.spec_style(), view_values(arr@)),
    {
        let ghost a = view_values(arr@);
        proof {
            lemma_view_values(arr@);
        }
        let mut i: usize = 0;
        while i < arr.len()
            invariant
                i <= arr@.len() == a.len(),
                a == view_values(arr@),
                forall|j: int| 0 <= j < a.len() ==> #[trigger] a[j] == view_value(arr@[j]),
                buf@ == old(buf)@ + loose_items_text(self.spec_style(), a.take(i as int)),
            decreases arr.len() - i,
        {
            if i > 0 {
                push_char(buf, self.delimiter);
                push_char(buf, ' ');
            }
            let item = &arr[i];
            if item.is_primitive() {
                self.write_primitive(item, buf);
            } else {
                push_chars(buf, &['n', 'u', 'l', 'l']);
            }
            proof {
                assert(a[i as int] == item@);
                assert(a.take(i + 1).drop_last() =~= a.take(i as int));
                assert(a.take(i + 1).last() == a[i as int]);
                if i == 0 {
                    assert(buf@ =~= old(buf)@ + loose_items_text(self.spec_style(), a.take(1)));
                } else {
                    assert(buf@ =~= old(buf)@ + loose_items_text(self.spec_style(), a.take(i + 1)));
                }
            }
            i = i + 1;
        }
        assert(a.take(arr@.len() as int) =~= a);
    }

    /// The fields of a tabular array, if `arr` is one.
    fn extract_tabular_fields(&self, arr: &Vec<Value>) -> (r: Option<Vec<String>>)
        ensures
            match r {
                Some(f) => tabular_fields(view_values(arr@)) == Some(str_views(f@)),
                None => tabular_fields(view_values(arr@)) is None,
            },
    {
        let ghost a = view_values(arr@);
        proof {
            lemma_view_values(arr@);
        }
        if arr.len() == 0 {
            return None;
        }
        let first = match &arr[0] {
            Value::Object(obj) if !obj.is_empty() => obj,
            _ => {
                return None;
            },
        };
        let ghost fm = first@;
        proof {
            assert(a[0] == SpecValue::Object(fm));
        }
        let nk = first.len();
        let mut keys: Vec<String> = Vec::new();
        let mut j: usize = 0;
        while j < nk
            invariant
                nk == fm.len(),
                fm == first@,
                j <= nk,
                keys@.len() == j,
                forall|t: int| 0 <= t < j ==> #[trigger] keys@[t]@ == fm[t].0,
            decreases nk - j,
        {
            let (fk, _fv) = first.entry(j);
            keys.push(fk.to_owned());
            j = j + 1;
        }
        proof {
            assert(str_views(keys@) =~= keys_of(fm));
        }
        let mut j: usize = 0;
        while j < nk
            invariant
                nk == fm.len(),
                fm == first@,
                j <= nk,
                forall|t: int| 0 <= t < j ==> (#[trigger] fm[t]).1.is_primitive(),
                a == view_values(arr@),
                a[0] == SpecValue::Object(fm),
                str_views(keys@) == keys_of(fm),
            decreases nk - j,
        {
            let (_fk, fv) = first.entry(j);
            if !fv.is_primitive() {
                proof {
                    assert(!fm[j as int].1.is_primitive());
                }
                return None;
            }
            j = j + 1;
        }
        let mut i: usize = 1;
        while i < arr.len()
            invariant
                1 <= i <= arr@.len() == a.len(),
                a == view_values(arr@),
                forall|t: int| 0 <= t < a.len() ==> #[trigger] a[t] == view_value(arr@[t]),
                a[0] == SpecValue::Object(fm),
                fm.len() > 0,
                forall|t: int| 0 <= t < fm.len() ==> (#[trigger] fm[t]).1.is_primitive(),
                str_views(keys@) == keys_of(fm),
                keys@.len() == fm.len(),
                forall|t: int| 1 <= t < i ==> matches_fields(#[trigger] a[t], keys_of(fm)),
            decreases arr.len() - i,
        {
            proof {
                assert(a[i as int] == arr@[i as int]@);
            }
            match &arr[i] {
                Value::Object(obj) => {
                    proof {
                        assert(a[i as int] == SpecValue::Object(obj@));
                    }
                    if obj.len() != keys.len() {
                        proof {
                            assert(!matches_fields(a[i as int], keys_of(fm)));
                        }
                        return None;
                    }
                    let mut k: usize = 0;
                    while k < keys.len()
                        invariant
                            k <= keys@.len(),
                            keys@.len() == fm.len() == obj@.len(),
                            str_views(keys@) == keys_of(fm),
                            a[i as int] == SpecValue::Object(obj@),
                            1 <= i < a.len(),
                            a == view_values(arr@),
                            a[0] == SpecValue::Object(fm),
                            forall|t: int|
                                0 <= t < k ==> (match map_get(obj@, #[trigger] keys_of(fm)[t]) {
                                    Some(v) => v.is_primitive(),
                                    None => false,
                                }),
                        decreases keys.len() - k,
                    {
                        proof {
                            assert(str_views(keys@)[k as int] == keys@[k as int]@);
                        }
                        match obj.get(keys[k].as_str()) {
                            Some(v) if v.is_primitive() => {},
                            _ => {
                                proof {
                                    assert(!matches_fields(a[i as int], keys_of(fm)));
                                }
                                return None;
                            },
                        }
                        k = k + 1;
                    }
                    proof {
                        assert(matches_fields(a[i as int], keys_of(fm)));
                    }
                },
                _ => {
                    proof {
                        assert(!matches_fields(a[i as int], keys_of(fm)));
                    }
                    return None;
                },
            }
            i = i + 1;
        }
        Some(keys)
    }

    /// The header fields of a tabular array.
    fn write_fields(&self, fields: &Vec<String>, buf: &mut String)
        ensures
            final(buf)@ == old(buf)@ + fields_text(self.spec_style(), str_views(fields@)),
    {
        let ghost fs = str_views(fields@);
        let mut i: usize = 0;
        while i < fields.len()
            invariant
                i <= fields@.len() == fs.len(),
                fs == str_views(fields@),
                buf@ == old(buf)@ + fields_text(self.spec_style(), fs.take(i as int)),
            decreases fields.len() - i,
        {
            if i > 0 {
                push_char(buf, self.delimiter);
            }
            self.write_key(fields[i].as_str(), buf);
            proof {
                assert(fs.take(i + 1).drop_last() =~= fs.take(i as int));
                assert(fs.take(i + 1).last() == fields@[i as int]@);
                assert(buf@ =~= old(buf)@ + fields_text(self.spec_style(), fs.take(i + 1)));
            }
            i = i + 1;
        }
        assert(fs.take(fields@.len() as int) =~= fs);
    }

    /// The rows of a tabular array.
    fn write_rows(&self, fields: &Vec<String>, arr: &Vec<Value>, depth: usize, buf: &mut String)
        requires
            self.indent * (depth + 1) <= usize::MAX,
            depth + 1 <= usize::MAX,
        ensures
            final(buf)@ == old(buf)@ + rows_text(
                self.indent as nat,
                self.spec_style(),
                str_views(fields@),
                view_values(arr@),
                depth as nat,
            ),
    {
        let ghost a = view_values(arr@);
        let ghost fs = str_views(fields@);
        proof {
            lemma_view_values(arr@);
        }
        let mut i: usize = 0;
        while i < arr.len()
            invariant
                i <= arr@.len() == a.len(),
                a == view_values(arr@),
                fs == str_views(fields@),
                self.indent * (depth + 1) <= usize::MAX,
                depth + 1 <= usize::MAX,
                forall|t: int| 0 <= t < a.len() ==> #[trigger] a[t] == view_value(arr@[t]),
                buf@ == old(buf)@ + rows_text(self.indent as nat, self.spec_style(), fs, a.take(i as int), depth as nat),
            decreases arr.len() - i,
        {
            let ghost before = buf@;
            if let Value::Object(obj) = &arr[i] {
                push_char(buf, '\n');
                self.write_indent(depth + 1, buf);
                self.write_row(fields, obj, buf);
            }
            proof {
                assert(a.take(i + 1).drop_last() =~= a.take(i as int));
                assert(a.take(i + 1).last() == a[i as int]);
                assert(buf@ =~= old(buf)@ + rows_text(
                    self.indent as nat,
                    self.spec_style(),
                    fs,
                    a.take(i + 1),
                    depth as nat,
                ));
            }
            i = i + 1;
        }
        assert(a.take(arr@.len() as int) =~= a);
    }

    /// One row of a tabular array: the cells under `fields`.
    fn write_row(&self, fields: &Vec<String>, obj: &SconMap, buf: &mut String)
        ensures
            final(buf)@ == old(buf)@ + row_text(self.spec_style(), str_views(fields@), obj@),
    {
        let ghost fs = str_views(fields@);
        let mut i: usize = 0;
        while i < fields.len()
            invariant
                i <= fields@.len() == fs.len(),
                fs == str_views(fields@),
                buf@ == old(buf)@ + row_text(self.spec_style(), fs.take(i as int), obj@),
            decreases fields.len() - i,
        {
            if i > 0 {
                push_char(buf, self.delimiter);
                push_char(buf, ' ');
            }
            match obj.get(fields[i].as_str()) {
                Some(v) => self.write_primitive(v, buf),
                None => push_chars(buf, &['n', 'u', 'l', 'l']),
            }
            proof {
                assert(fs.take(i + 1).drop_last() =~= fs.take(i as int));
                assert(fs.take(i + 1).last() == fields@[i as int]@);
                assert(buf@ =~= old(buf)@ + row_text(self.spec_style(), fs.take(i + 1), obj@));
            }
            i = i + 1;
        }
        assert(fs.take(fields@.len() as int) =~= fs);
    }

    // --- Primitive writing ---
    pub(crate) fn write_usize(&self, n: usize, buf: &mut String)
        ensures
            final(buf)@ == old(buf)@ + int_text(n as int),
    {
        let t = usize_text(n);
        buf.append(t.as_str());
    }

    fn write_primitive(&self, value: &Value, buf: &mut String)
        ensures
            final(buf)@ == old(buf)@ + primitive_text(self.spec_style(), value@),
    {
        match value {
            Value::Null => push_chars(buf, &['n', 'u', 'l', 'l']),
            Value::Bool(true) => push_chars(buf, &['t', 'r', 'u', 'e']),
            Value::Bool(false) => push_chars(buf, &['f', 'a', 'l', 's', 'e']),
            Value::Integer(n) => {
                let t = i64_text(*n);
                buf.append(t.as_str());
            },
            Value::Float(t) => buf.append(t.as_str()),
            Value::String(s) => self.write_string(s.as_str(), buf),
            _ => {},
        }
    }

    pub(crate) fn write_string(&self, s: &str, buf: &mut String)
        ensures
            final(buf)@ == old(buf)@ + string_text(self.spec_style(), s@),
    {
        if self.is_safe_unquoted(s) {
            buf.append(s);
        } else {
            push_char(buf, '"');
            escape_string(s, buf);
            push_char(buf, '"');
            assert(buf@ =~= old(buf)@ + quoted(s@));
        }
    }

    pub(crate) fn write_key(&self, key: &str, buf: &mut String)
        ensures
            final(buf)@ == old(buf)@ + key_text(key@),
    {
        if is_valid_unquoted_key(key) {
            buf.append(key);
        } else {
            push_char(buf, '"');
            escape_string(key, buf);
            push_char(buf, '"');
            assert(buf@ =~= old(buf)@ + quoted(key@));
        }
    }

    /// Whether a string value can be written without quotes.
    fn is_safe_unquoted(&self, s: &str) -> (r: bool)
        ensures
            r == safe_unquoted(self.spec_style(), s@),
    {
        match self.quoting {
            Quoting::Bytes => self.is_safe_by_bytes(s),
            Quoting::Parsed => self.is_safe_by_parsing(s),
        }
    }

    fn is_safe_by_bytes(&self, s: &str) -> (r: bool)
        requires
            self.spec_quoting() == Quoting::Bytes,
        ensures
            r == safe_unquoted(self.spec_style(), s@),
    {
        let bytes = s.as_bytes();
        if bytes.len() == 0 {
            return false;
        }
        let cs = chars_of(s);
        if chars_eq(cs.as_slice(), &['t', 'r', 'u', 'e']) || chars_eq(
            cs.as_slice(),
            &['f', 'a', 'l', 's', 'e'],
        ) || chars_eq(cs.as_slice(), &['n', 'u', 'l', 'l']) {
            return false;
        }
        let first = bytes[0];
        if (0x30 <= first && first <= 0x39) || first == 0x2B || first == 0x2D || first == 0x2E {
            return false;
        }
        let delim_byte = (self.delimiter as u32) as u8;
        let mut i: usize = 0;
        while i < bytes.len()
            invariant
                i <= bytes@.len(),
                bytes@ == encode_utf8_of(s@),
                self.spec_quoting() == Quoting::Bytes,
                delim_byte == delimiter_byte(self.delimiter),
                forall|j: int|
                    0 <= j < i ==> !value_unsafe_byte(#[trigger] bytes@[j]) && bytes@[j] != delim_byte,
            decreases bytes.len() - i,
        {
            let b = bytes[i];
            if b == 0x20 || b == 0x09 || b == 0x0A || b == 0x0D || b == 0x3A || b == 0x22 || b == 0x5C || b == 0x3B || b
                == 0x40 || b == 0x23 || b == 0x7B || b == 0x5B || b == 0x5D || b == 0x7D || b
                == delim_byte {
                return false;
            }
            i = i + 1;
        }
        true
    }

    fn is_safe_by_parsing(&self, s: &str) -> (r: bool)
        requires
            self.spec_quoting() == Quoting::Parsed,
        ensures
            r == safe_unquoted(self.spec_style(), s@),
    {
        let cs = chars_of(s);
        if cs.len() == 0 {
            return false;
        }
        if chars_eq(cs.as_slice(), &['t', 'r', 'u', 'e']) || chars_eq(
            cs.as_slice(),
            &['f', 'a', 'l', 's', 'e'],
        ) || chars_eq(cs.as_slice(), &['n', 'u', 'l', 'l']) {
            return false;
        }
        if is_i64_literal(cs.as_slice()) || is_float_literal(cs.as_slice()) {
            return false;
        }
        let mut i: usize = 0;
        while i < cs.len()
            invariant
                i <= cs@.len(),
                cs@ == s@,
                self.spec_quoting() == Quoting::Parsed,
                forall|j: int|
                    0 <= j < i ==> !value_unsafe_char(#[trigger] cs@[j]) && cs@[j] != self.delimiter,
            decreases cs.len() - i,
        {
            let c = cs[i];
            if c == ' ' || c == '\t' || c == '\n' || c == '\r' || c == ':' || c == '"' || c == '\\' || c == ';' || c == '@'
                || c == '#' || c == '{' || c == '[' || c == ']' || c == '}' || c == self.delimiter {
                return false;
            }
            i = i + 1;
        }
        true
    }
}

impl Default for Encoder {
    /// The same encoder as [`Encoder::new`].
    fn default() -> (e: Encoder)
        ensures
            e.spec_indent() == 1,
            e.spec_delimiter() == ',',
            e.spec_quoting() == Quoting::Bytes,
            e.spec_flavor() == Flavor::Standard,
    {
        Encoder::new()
    }
}

/// The UTF-8 bytes of a character sequence.
pub open spec fn encode_utf8_of(s: Seq<char>) -> Seq<u8> {
    vstd::utf8::encode_utf8(s)
}

/// Appends `s` with backslash, quote, line feed, carriage return, tab and
/// semicolon escaped.
pub fn escape_string(s: &str, buf: &mut String)
    ensures
        final(buf)@ == old(buf)@ + escape(s@),
{
    let cs = chars_of(s);
    let mut i: usize = 0;
    while i < cs.len()
        invariant
            i <= cs@.len(),
            cs@ == s@,
            buf@ == old(buf)@ + escape(cs@.take(i as int)),
        decreases cs.len() - i,
    {
        let c = cs[i];
        if c == '\\' {
            push_chars(buf, &['\\', '\\']);
        } else if c == '"' {
            push_chars(buf, &['\\', '"']);
        } else if c == '\n' {
            push_chars(buf, &['\\', 'n']);
        } else if c == '\r' {
            push_chars(buf, &['\\', 'r']);
        } else if c == '\t' {
            push_chars(buf, &['\\', 't']);
        } else if c == ';' {
            push_chars(buf, &['\\', ';']);
        } else {
            push_char(buf, c);
        }
        proof {
            assert(cs@.take(i + 1).drop_last() =~= cs@.take(i as int));
            assert(cs@.take(i + 1).last() == c);
            assert(buf@ =~= old(buf)@ + escape(cs@.take(i + 1)));
        }
        i = i + 1;
    }
    assert(cs@.take(cs@.len() as int) =~= cs@);
}

/// Whether a key can be written without quotes.
pub fn is_valid_unquoted_key(key: &str) -> (r: bool)
    ensures
        r == valid_unquoted_key(key@),
{
    let bytes = key.as_bytes();
    if bytes.len() == 0 {
        return false;
    }
    if bytes[0] == 0x23 {
        return false;
    }
    let mut i: usize = 0;
    while i < bytes.len()
        invariant
            i <= bytes@.len(),
            bytes@ == encode_utf8_of(key@),
            forall|j: int| 0 <= j < i ==> !key_unsafe_byte(#[trigger] bytes@[j]),
        decreases bytes.len() - i,
    {
        let b = bytes[i];
        if b == 0x3A || b == 0x5B || b == 0x5D || b == 0x7B || b == 0x7D || b == 0x22 || b == 0x5C
            || b == 0x20 || b == 0x09 || b == 0x0A || b == 0x0D || b == 0x3B || b == 0x40 || b == 0x23
            || b == 0x2C {
            return false;
        }
        i = i + 1;
    }
    true
}

impl Encoder {
    /// Appends `depth` levels of indentation.
    pub(crate) fn write_indent(&self, depth: usize, buf: &mut String)
        requires
            self.spec_indent() * depth <= usize::MAX,
        ensures
            final(buf)@ == old(buf)@ + indent_text(self.spec_indent(), depth as nat),
    {
        let spaces = self.indent * depth;
        let mut k: usize = 0;
        while k < spaces
            invariant
                k <= spaces,
                buf@ == old(buf)@ + crate::format::spaces(k as nat),
            decreases spaces - k,
        {
            push_char(buf, ' ');
            k = k + 1;
            assert(buf@ =~= old(buf)@ + crate::format::spaces(k as nat));
        }
    }
}

} // verus!
