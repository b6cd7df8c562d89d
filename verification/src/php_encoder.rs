//! The encoder for PHP values.  A PHP array is written as an array where its
//! keys are `0, 1, 2, ...` in order and as an object otherwise; an empty PHP
//! array is written as `[]`.
use vstd::prelude::*;
use crate::encoder::{indent_fits, lemma_fits, lemma_fits_child, Encoder};
use crate::format::{count_text, indent_text, key_text, primitive_text, Flavor, Quoting, Style};
use crate::text::{i64_text, int_text, push_char, push_chars};
use crate::value::{SpecValue, Value};

verus! {

// ---------------------------------------------------------------------------
// PHP values
// ---------------------------------------------------------------------------
/// The key of an entry of a PHP array.
#[derive(Debug, PartialEq)]
pub enum PhpKey {
    Index(i64),
    Name(String),
}

/// A PHP value, as the encoder reads it.
#[derive(Debug, PartialEq)]
pub enum PhpValue {
    Null,
    Bool(bool),
    Long(i64),
    /// A floating-point number, as its text.
    Double(String),
    Str(String),
    Array(Vec<(PhpKey, PhpValue)>),
    /// Any other kind of value (an object, a resource, ...).
    Other,
}

pub enum PhpKeyModel {
    Index(i64),
    Name(Seq<char>),
}

pub enum PhpModel {
    Null,
    Bool(bool),
    Long(i64),
    Double(Seq<char>),
    Str(Seq<char>),
    Array(Seq<(PhpKeyModel, PhpModel)>),
    Other,
}

pub type PhpEntries = Seq<(PhpKeyModel, PhpModel)>;

pub open spec fn key_view(k: PhpKey) -> PhpKeyModel {
    match k {
        PhpKey::Index(n) => PhpKeyModel::Index(n),
        PhpKey::Name(s) => PhpKeyModel::Name(s@),
    }
}

pub open spec fn php_view(v: PhpValue) -> PhpModel
    decreases v,
{
    match v {
        PhpValue::Null => PhpModel::Null,
        PhpValue::Bool(b) => PhpModel::Bool(b),
        PhpValue::Long(n) => PhpModel::Long(n),
        PhpValue::Double(t) => PhpModel::Double(t@),
        PhpValue::Str(s) => PhpModel::Str(s@),
        PhpValue::Array(m) => PhpModel::Array(php_entries_view(m@)),
        PhpValue::Other => PhpModel::Other,
    }
}

pub open spec fn php_entries_view(s: Seq<(PhpKey, PhpValue)>) -> PhpEntries
    decreases s,
{
    if s.len() == 0 {
        Seq::empty()
    } else {
        seq![(key_view(s[0].0), php_view(s[0].1))] + php_entries_view(s.drop_first())
    }
}

impl View for PhpValue {
    type V = PhpModel;

    open spec fn view(&self) -> PhpModel {
        php_view(*self)
    }
}

/// Viewing entries one by one.
pub proof fn lemma_php_entries_view(s: Seq<(PhpKey, PhpValue)>)
    ensures
        php_entries_view(s).len() == s.len(),
        forall|i: int|
            0 <= i < s.len() ==> #[trigger] php_entries_view(s)[i] == (
                key_view(s[i].0),
                php_view(s[i].1),
            ),
    decreases s.len(),
{
    if s.len() > 0 {
        lemma_php_entries_view(s.drop_first());
        assert forall|i: int| 0 <= i < s.len() implies #[trigger] php_entries_view(s)[i] == (
            key_view(s[i].0),
            php_view(s[i].1),
        ) by {
            if i > 0 {
                assert(s.drop_first()[i - 1] == s[i]);
            }
        }
    }
}

/// How deep arrays nest in a value.
pub open spec fn php_height(v: PhpModel) -> nat
    decreases v,
{
    match v {
        PhpModel::Array(m) => 1 + php_entries_height(m),
        _ => 0,
    }
}

pub open spec fn php_entries_height(m: PhpEntries) -> nat
    decreases m,
{
    if m.len() == 0 {
        0
    } else {
        let h = php_height(m.last().1);
        let r = php_entries_height(m.drop_last());
        if h > r {
            h
        } else {
            r
        }
    }
}

pub proof fn lemma_php_entries_height(m: PhpEntries)
    ensures
        forall|i: int| 0 <= i < m.len() ==> php_height(#[trigger] m[i].1) <= php_entries_height(m),
    decreases m.len(),
{
    if m.len() > 0 {
        lemma_php_entries_height(m.drop_last());
        assert forall|i: int| 0 <= i < m.len() implies php_height(#[trigger] m[i].1)
            <= php_entries_height(m) by {
            if i < m.len() - 1 {
                assert(m.drop_last()[i] == m[i]);
            }
        }
    }
}

// ---------------------------------------------------------------------------
// The text of PHP values
// ---------------------------------------------------------------------------
/// The style of PHP output: `,` between items, strings quoted by their bytes.
pub open spec fn php_style() -> Style {
    Style { delimiter: ',', quoting: Quoting::Bytes, flavor: Flavor::Standard }
}

/// Keys `0, 1, 2, ...`, in order.
pub open spec fn sequential(m: PhpEntries) -> bool {
    forall|i: int| 0 <= i < m.len() ==> (#[trigger] m[i]).0 == PhpKeyModel::Index(i as i64)
}

pub open spec fn is_php_array(v: PhpModel) -> bool {
    v is Array
}

/// No value of the entries is an array.
pub open spec fn all_scalar(m: PhpEntries) -> bool {
    forall|i: int| 0 <= i < m.len() ==> !is_php_array(#[trigger] m[i].1)
}

pub open spec fn key_str(k: PhpKeyModel) -> Seq<char> {
    match k {
        PhpKeyModel::Index(n) => int_text(n as int),
        PhpKeyModel::Name(s) => s,
    }
}

/// The text of a value that is no array: `null` for other kinds of value.
pub open spec fn php_prim(v: PhpModel) -> Seq<char> {
    match v {
        PhpModel::Null => seq!['n', 'u', 'l', 'l'],
        PhpModel::Bool(b) => if b {
            seq!['t', 'r', 'u', 'e']
        } else {
            seq!['f', 'a', 'l', 's', 'e']
        },
        PhpModel::Long(n) => int_text(n as int),
        PhpModel::Double(t) => t,
        PhpModel::Str(s) => primitive_text(php_style(), SpecValue::Str(s)),
        _ => seq!['n', 'u', 'l', 'l'],
    }
}

/// Values that are no arrays, separated by `, `.
pub open spec fn prims_text(m: PhpEntries) -> Seq<char>
    decreases m.len(),
{
    if m.len() == 0 {
        Seq::empty()
    } else if m.len() == 1 {
        php_prim(m[0].1)
    } else {
        prims_text(m.drop_last()) + seq![',', ' '] + php_prim(m.last().1)
    }
}

/// The names of the keys, where every key is a name.
pub open spec fn all_names(m: PhpEntries) -> bool {
    forall|i: int| 0 <= i < m.len() ==> (#[trigger] m[i]).0 is Name
}

pub open spec fn names_of(m: PhpEntries) -> Seq<Seq<char>> {
    Seq::new(m.len(), |i: int| key_str(m[i].0))
}

/// Whether the entries have exactly the names `f`, in that order, and no
/// array value.
pub open spec fn matches_names(m: PhpEntries, f: Seq<Seq<char>>) -> bool {
    &&& m.len() == f.len()
    &&& all_scalar(m)
    &&& forall|i: int| 0 <= i < m.len() ==> (#[trigger] m[i]).0 == PhpKeyModel::Name(f[i])
}

/// The fields of a tabular array: the first item is an array with names as
/// keys and no array value; every other item is an array with the same names
/// in the same order and no array value.
pub open spec fn php_tabular_fields(m: PhpEntries) -> Option<Seq<Seq<char>>> {
    if m.len() == 0 {
        None
    } else {
        match m[0].1 {
            PhpModel::Array(first) => if first.len() == 0 || sequential(first) || !all_scalar(first)
                || !all_names(first) {
                None
            } else {
                let f = names_of(first);
                if forall|j: int|
                    1 <= j < m.len() ==> (#[trigger] m[j].1 matches PhpModel::Array(ht)
                        && matches_names(ht, f)) {
                    Some(f)
                } else {
                    None
                }
            },
            _ => None,
        }
    }
}

/// The header fields of a tabular array, separated by `,`.
pub open spec fn php_fields_text(f: Seq<Seq<char>>) -> Seq<char>
    decreases f.len(),
{
    if f.len() == 0 {
        Seq::empty()
    } else if f.len() == 1 {
        key_text(f[0])
    } else {
        php_fields_text(f.drop_last()) + seq![','] + key_text(f.last())
    }
}

/// The index of the first entry named `name`, from `i`, or -1.
pub open spec fn name_index(m: PhpEntries, name: Seq<char>, i: int) -> int
    decreases m.len() - i,
{
    if i < 0 || i >= m.len() {
        -1
    } else if m[i].0 == PhpKeyModel::Name(name) {
        i
    } else {
        name_index(m, name, i + 1)
    }
}

/// The cell of a row under a field: the value of the first entry so named,
/// or `null`.
pub open spec fn php_cell(m: PhpEntries, name: Seq<char>) -> Seq<char> {
    let i = name_index(m, name, 0);
    if 0 <= i < m.len() {
        php_prim(m[i].1)
    } else {
        seq!['n', 'u', 'l', 'l']
    }
}

/// The cells of a row, separated by `, `.
pub open spec fn php_row_text(m: PhpEntries, f: Seq<Seq<char>>) -> Seq<char>
    decreases f.len(),
{
    if f.len() == 0 {
        Seq::empty()
    } else if f.len() == 1 {
        php_cell(m, f[0])
    } else {
        php_row_text(m, f.drop_last()) + seq![',', ' '] + php_cell(m, f.last())
    }
}

/// The rows of a tabular array, each on a new line one level deeper.
pub open spec fn php_rows_text(ind: nat, f: Seq<Seq<char>>, m: PhpEntries, depth: nat) -> Seq<char>
    decreases m.len(),
{
    if m.len() == 0 {
        Seq::empty()
    } else {
        php_rows_text(ind, f, m.drop_last(), depth) + match m.last().1 {
            PhpModel::Array(row) => seq!['\n'] + indent_text(ind, depth + 1) + php_row_text(row, f),
            _ => Seq::empty(),
        }
    }
}

/// The entries of an object at `depth`, one per line.
pub open spec fn php_object(ind: nat, m: PhpEntries, depth: nat) -> Seq<char>
    decreases m, 0int,
{
    if m.len() == 0 {
        Seq::empty()
    } else if m.len() == 1 {
        indent_text(ind, depth) + key_text(key_str(m.last().0)) + php_after_key(
            ind,
            m.last().1,
            depth,
        )
    } else {
        php_object(ind, m.drop_last(), depth) + seq!['\n'] + indent_text(ind, depth) + key_text(
            key_str(m.last().0),
        ) + php_after_key(ind, m.last().1, depth)
    }
}

/// What follows a key in an object.
pub open spec fn php_after_key(ind: nat, v: PhpModel, depth: nat) -> Seq<char>
    decreases v, 0int,
{
    match v {
        PhpModel::Array(inner) => if inner.len() == 0 {
            seq![':', ' ', '[', ']']
        } else if sequential(inner) {
            php_array(ind, inner, depth)
        } else {
            seq![':', '\n'] + php_object(ind, inner, depth + 1)
        },
        _ => seq![':', ' '] + php_prim(v),
    }
}

/// An array, right after its key (or alone): inline, tabular or expanded.
pub open spec fn php_array(ind: nat, m: PhpEntries, depth: nat) -> Seq<char>
    decreases m, 1int,
{
    if m.len() == 0 {
        seq!['[', ']']
    } else if all_scalar(m) {
        count_text(m.len()) + seq![':', ' '] + prims_text(m)
    } else if php_tabular_fields(m) is Some {
        let f = php_tabular_fields(m)->0;
        count_text(m.len()) + seq!['{'] + php_fields_text(f) + seq!['}', ':'] + php_rows_text(
            ind,
            f,
            m,
            depth,
        )
    } else {
        count_text(m.len()) + seq![':'] + php_items(ind, m, depth)
    }
}

/// The items of an expanded array, each on a new line.
pub open spec fn php_items(ind: nat, m: PhpEntries, depth: nat) -> Seq<char>
    decreases m, 0int,
{
    if m.len() == 0 {
        Seq::empty()
    } else {
        php_items(ind, m.drop_last(), depth) + seq!['\n'] + php_item(ind, m.last().1, depth)
    }
}

/// One item of an expanded array, one level deeper than the array.
pub open spec fn php_item(ind: nat, v: PhpModel, depth: nat) -> Seq<char>
    decreases v, 0int,
{
    match v {
        PhpModel::Array(inner) => if inner.len() == 0 {
            indent_text(ind, depth + 1) + seq!['-', ' ', '{', '}']
        } else if sequential(inner) {
            indent_text(ind, depth + 1) + seq!['-', ' '] + php_array(ind, inner, depth + 1)
        } else {
            php_list_item(ind, inner, depth + 1)
        },
        _ => indent_text(ind, depth + 1) + seq!['-', ' '] + php_prim(v),
    }
}

/// An array with keys written as a list item: its first entry on the `- `
/// line, the others one level deeper.
pub open spec fn php_list_item(ind: nat, m: PhpEntries, depth: nat) -> Seq<char>
    decreases m, 1int,
{
    if m.len() == 0 {
        indent_text(ind, depth) + seq!['-', ' ', '{', '}']
    } else {
        indent_text(ind, depth) + seq!['-', ' '] + key_text(key_str(m[0].0)) + php_first(
            ind,
            m[0].1,
            depth,
        ) + php_rest(ind, m.drop_first(), depth)
    }
}

/// What follows the key of the first entry of a list item.
pub open spec fn php_first(ind: nat, v: PhpModel, depth: nat) -> Seq<char>
    decreases v, 0int,
{
    match v {
        PhpModel::Array(inner) => if inner.len() == 0 {
            seq![':', ' ', '{', '}']
        } else if sequential(inner) {
            php_array(ind, inner, depth + 1)
        } else {
            seq![':', '\n'] + php_object(ind, inner, depth + 2)
        },
        _ => seq![':', ' '] + php_prim(v),
    }
}

/// The entries of a list item after the first, each on a new line one level
/// deeper than the item.
pub open spec fn php_rest(ind: nat, m: PhpEntries, depth: nat) -> Seq<char>
    decreases m, 0int,
{
    if m.len() == 0 {
        Seq::empty()
    } else {
        php_rest(ind, m.drop_last(), depth) + seq!['\n'] + indent_text(ind, depth + 1) + key_text(
            key_str(m.last().0),
        ) + php_rest_value(ind, m.last().1, depth)
    }
}

/// What follows the key of a later entry of a list item.
pub open spec fn php_rest_value(ind: nat, v: PhpModel, depth: nat) -> Seq<char>
    decreases v, 0int,
{
    match v {
        PhpModel::Array(inner) => if inner.len() == 0 {
            seq![':', ' ', '[', ']']
        } else if sequential(inner) {
            php_array(ind, inner, depth + 1)
        } else {
            seq![':', '\n'] + php_object(ind, inner, depth + 2)
        },
        _ => seq![':', ' '] + php_prim(v),
    }
}

/// The SCON text of a PHP value.
pub open spec fn php_document(ind: nat, v: PhpModel) -> Seq<char> {
    match v {
        PhpModel::Array(m) => if m.len() == 0 {
            seq!['[', ']']
        } else if sequential(m) {
            php_array(ind, m, 0)
        } else {
            php_object(ind, m, 0)
        },
        _ => php_prim(v),
    }
}

// ---------------------------------------------------------------------------
// The encoder
// ---------------------------------------------------------------------------
/// Whether the keys are `0, 1, 2, ...` in order.
fn is_sequential(m: &Vec<(PhpKey, PhpValue)>) -> (r: bool)
    ensures
        r == sequential(php_entries_view(m@)),
{
    let ghost mv = php_entries_view(m@);
    proof {
        lemma_php_entries_view(m@);
    }
    let mut i: usize = 0;
    while i < m.len()
        invariant
            i <= m@.len() == mv.len(),
            mv == php_entries_view(m@),
            forall|j: int| 0 <= j < m@.len() ==> #[trigger] mv[j] == (key_view(m@[j].0), php_view(m@[j].1)),
            forall|j: int| 0 <= j < i ==> (#[trigger] mv[j]).0 == PhpKeyModel::Index(j as i64),
        decreases m@.len() - i,
    {
        match &m[i].0 {
            PhpKey::Index(n) => {
                if (*n as u64) != (i as u64) {
                    proof {
                        assert(mv[i as int].0 == PhpKeyModel::Index(*n));
                        assert(*n != (i as i64)) by (bit_vector)
                            requires
                                (*n as u64) != (i as u64),
                        ;
                    }
                    return false;
                }
                proof {
                    assert(*n == (i as i64)) by (bit_vector)
                        requires
                            (*n as u64) == (i as u64),
                    ;
                }
            },
            PhpKey::Name(_) => {
                return false;
            },
        }
        i = i + 1;
    }
    true
}

/// Whether no value of the entries is an array.
fn is_all_scalar(m: &Vec<(PhpKey, PhpValue)>) -> (r: bool)
    ensures
        r == all_scalar(php_entries_view(m@)),
{
    let ghost mv = php_entries_view(m@);
    proof {
        lemma_php_entries_view(m@);
    }
    let mut i: usize = 0;
    while i < m.len()
        invariant
            i <= m@.len() == mv.len(),
            mv == php_entries_view(m@),
            forall|j: int| 0 <= j < m@.len() ==> #[trigger] mv[j] == (key_view(m@[j].0), php_view(m@[j].1)),
            forall|j: int| 0 <= j < i ==> !is_php_array(#[trigger] mv[j].1),
        decreases m@.len() - i,
    {
        match &m[i].1 {
            PhpValue::Array(_) => {
                proof {
                    assert(is_php_array(mv[i as int].1));
                }
                return false;
            },
            _ => {},
        }
        i = i + 1;
    }
    true
}

/// Encodes PHP values as SCON.
pub struct ZvalEncoder {
    inner: Encoder,
}

impl ZvalEncoder {
    #[verifier::type_invariant]
    spec fn wf(&self) -> bool {
        self.inner.spec_style() == php_style()
    }

    /// The number of spaces per level.
    pub closed spec fn spec_indent(&self) -> nat {
        self.inner.spec_indent()
    }

    /// An encoder with `indent` spaces per level (at least one).
    pub fn new(indent: usize) -> (e: ZvalEncoder)
        ensures
            e.spec_indent() == (if indent < 1 {
                1
            } else {
                indent as nat
            }),
    {
        ZvalEncoder { inner: Encoder::new().with_indent(indent) }
    }

    /// The SCON text of `data`.
    pub fn encode(&self, data: &PhpValue) -> (r: String)
        requires
            indent_fits(self.spec_indent(), 0, php_height(data@)),
        ensures
            r@ == php_document(self.spec_indent(), data@),
    {
        self.inner.indent_is_positive();
        proof {
            use_type_invariant(self);
        }
        let mut buf = String::new();
        match data {
            PhpValue::Array(m) => {
                proof {
                    lemma_php_entries_view(m@);
                }
                if m.len() == 0 {
                    push_chars(&mut buf, &['[', ']']);
                } else if is_sequential(m) {
                    self.write_array(m, 0, &mut buf);
                } else {
                    self.write_object(m, 0, &mut buf);
                }
            },
            _ => {
                self.write_prim(data, &mut buf);
            },
        }
        assert(buf@ =~= php_document(self.spec_indent(), data@));
        buf
    }

    /// The text of a value that is no array.
    fn write_prim(&self, v: &PhpValue, buf: &mut String)
        ensures
            final(buf)@ == old(buf)@ + php_prim(v@),
    {
        self.inner.indent_is_positive();
        proof {
            use_type_invariant(self);
        }
        match v {
            PhpValue::Null => push_chars(buf, &['n', 'u', 'l', 'l']),
            PhpValue::Bool(b) => {
                if *b {
                    push_chars(buf, &['t', 'r', 'u', 'e']);
                } else {
                    push_chars(buf, &['f', 'a', 'l', 's', 'e']);
                }
            },
            PhpValue::Long(n) => {
                let t = i64_text(*n);
                buf.append(t.as_str());
            },
            PhpValue::Double(t) => {
                buf.append(t.as_str());
            },
            PhpValue::Str(s) => {
                self.inner.write_string(s.as_str(), buf);
            },
            _ => push_chars(buf, &['n', 'u', 'l', 'l']),
        }
    }

    /// A key of an entry.
    fn write_php_key(&self, k: &PhpKey, buf: &mut String)
        ensures
            final(buf)@ == old(buf)@ + key_text(key_str(key_view(*k))),
    {
        match k {
            PhpKey::Index(n) => {
                let t = i64_text(*n);
                self.inner.write_key(t.as_str(), buf);
            },
            PhpKey::Name(s) => {
                self.inner.write_key(s.as_str(), buf);
            },
        }
    }

    /// The entries of an object at `depth`, one per line.
    fn write_object(&self, m: &Vec<(PhpKey, PhpValue)>, depth: usize, buf: &mut String)
        requires
            indent_fits(self.spec_indent(), depth as nat, php_height(PhpModel::Array(php_entries_view(m@)))),
        ensures
            final(buf)@ == old(buf)@ + php_object(self.spec_indent(), php_entries_view(m@), depth as nat),
        decreases php_height(PhpModel::Array(php_entries_view(m@))), 1int,
    {
        self.inner.indent_is_positive();
        proof {
            use_type_invariant(self);
        }
        let ghost ind = self.spec_indent();
        let ghost mv = php_entries_view(m@);
        let ghost h = php_height(PhpModel::Array(mv));
        proof {
            lemma_php_entries_view(m@);
            lemma_php_entries_height(mv);
            lemma_fits(ind, depth as nat, h, 0);
        }
        let mut i: usize = 0;
        while i < m.len()
            invariant
                i <= m@.len() == mv.len(),
                mv == php_entries_view(m@),
                ind == self.spec_indent(),
                ind >= 1,
                h == php_height(PhpModel::Array(mv)),
                indent_fits(ind, depth as nat, h),
                ind * depth <= usize::MAX,
                forall|j: int| 0 <= j < m@.len() ==> #[trigger] mv[j] == (key_view(m@[j].0), php_view(m@[j].1)),
                forall|j: int| 0 <= j < mv.len() ==> php_height(#[trigger] mv[j].1) <= php_entries_height(mv),
                buf@ == old(buf)@ + php_object(ind, mv.take(i as int), depth as nat),
            decreases m@.len() - i,
        {
            let ghost before = buf@;
            if i > 0 {
                push_char(buf, '\n');
            }
            let ghost after_nl = buf@;
            self.inner.write_indent(depth, buf);
            self.write_php_key(&m[i].0, buf);
            proof {
                assert(mv[i as int] == (key_view(m@[i as int].0), php_view(m@[i as int].1)));
                assert(php_height(mv[i as int].1) <= php_entries_height(mv));
                lemma_fits_child(ind, depth as nat, h, 0, php_height(m@[i as int].1@) + 1);
            }
            self.write_after_key(&m[i].1, depth, buf);
            proof {
                let t = mv.take(i + 1);
                assert(t.drop_last() =~= mv.take(i as int));
                assert(t.last() == mv[i as int]);
                if i == 0 {
                    assert(mv.take(i as int) =~= Seq::<(PhpKeyModel, PhpModel)>::empty());
                }
                assert(buf@ =~= old(buf)@ + php_object(ind, t, depth as nat));
            }
            i = i + 1;
        }
        assert(mv.take(m@.len() as int) =~= mv);
    }

    /// What follows a key in an object.
    fn write_after_key(&self, v: &PhpValue, depth: usize, buf: &mut String)
        requires
            indent_fits(self.spec_indent(), depth as nat, php_height(v@) + 1),
        ensures
            final(buf)@ == old(buf)@ + php_after_key(self.spec_indent(), v@, depth as nat),
        decreases php_height(v@), 2int,
    {
        self.inner.indent_is_positive();
        proof {
            use_type_invariant(self);
            lemma_fits(self.spec_indent(), depth as nat, php_height(v@) + 1, 1);
            lemma_fits_child(self.spec_indent(), depth as nat, php_height(v@) + 1, 1, php_height(v@));
            lemma_fits_child(self.spec_indent(), depth as nat, php_height(v@) + 1, 0, php_height(v@));
        }
        match v {
            PhpValue::Array(inner) => {
                proof {
                    lemma_php_entries_view(inner@);
                }
                if inner.len() == 0 {
                    push_chars(buf, &[':', ' ', '[', ']']);
                } else if is_sequential(inner) {
                    self.write_array(inner, depth, buf);
                } else {
                    push_chars(buf, &[':', '\n']);
                    self.write_object(inner, depth + 1, buf);
                }
            },
            _ => {
                push_chars(buf, &[':', ' ']);
                self.write_prim(v, buf);
            },
        }
        assert(buf@ =~= old(buf)@ + php_after_key(self.spec_indent(), v@, depth as nat));
    }

    /// An array right after its key (or alone).
    fn write_array(&self, m: &Vec<(PhpKey, PhpValue)>, depth: usize, buf: &mut String)
        requires
            indent_fits(self.spec_indent(), depth as nat, php_height(PhpModel::Array(php_entries_view(m@)))),
        ensures
            final(buf)@ == old(buf)@ + php_array(self.spec_indent(), php_entries_view(m@), depth as nat),
        decreases php_height(PhpModel::Array(php_entries_view(m@))), 1int,
    {
        self.inner.indent_is_positive();
        proof {
            use_type_invariant(self);
            lemma_php_entries_view(m@);
        }
        let ghost ind = self.spec_indent();
        let ghost mv = php_entries_view(m@);
        let len = m.len();
        if len == 0 {
            push_chars(buf, &['[', ']']);
            return;
        }
        if is_all_scalar(m) {
            push_char(buf, '[');
            self.inner.write_usize(len, buf);
            push_chars(buf, &[']', ':', ' ']);
            self.write_prims(m, buf);
            assert(buf@ =~= old(buf)@ + php_array(ind, mv, depth as nat));
            return;
        }
        if let Some(fields) = self.tabular_fields(m) {
            push_char(buf, '[');
            self.inner.write_usize(len, buf);
            push_chars(buf, &[']', '{']);
            self.write_fields(&fields, buf);
            push_chars(buf, &['}', ':']);
            proof {
                lemma_fits(ind, depth as nat, php_height(PhpModel::Array(mv)), 1);
            }
            self.write_rows(&fields, m, depth, buf);
            assert(buf@ =~= old(buf)@ + php_array(ind, mv, depth as nat));
            return;
        }
        push_char(buf, '[');
        self.inner.write_usize(len, buf);
        push_chars(buf, &[']', ':']);
        self.write_items(m, depth, buf);
        assert(buf@ =~= old(buf)@ + php_array(ind, mv, depth as nat));
    }

    /// Values that are no arrays, separated by `, `.
    fn write_prims(&self, m: &Vec<(PhpKey, PhpValue)>, buf: &mut String)
        ensures
            final(buf)@ == old(buf)@ + prims_text(php_entries_view(m@)),
    {
        let ghost mv = php_entries_view(m@);
        proof {
            lemma_php_entries_view(m@);
        }
        let mut i: usize = 0;
        while i < m.len()
            invariant
                i <= m@.len() == mv.len(),
                mv == php_entries_view(m@),
                forall|j: int| 0 <= j < m@.len() ==> #[trigger] mv[j] == (key_view(m@[j].0), php_view(m@[j].1)),
                buf@ == old(buf)@ + prims_text(mv.take(i as int)),
            decreases m@.len() - i,
        {
            if i > 0 {
                push_chars(buf, &[',', ' ']);
            }
            self.write_prim(&m[i].1, buf);
            proof {
                assert(mv[i as int].1 == php_view(m@[i as int].1));
                let t = mv.take(i + 1);
                assert(t.drop_last() =~= mv.take(i as int));
                assert(t.last() == mv[i as int]);
                if i == 0 {
                    assert(buf@ =~= old(buf)@ + prims_text(t));
                } else {
                    assert(buf@ =~= old(buf)@ + prims_text(t));
                }
            }
            i = i + 1;
        }
        assert(mv.take(m@.len() as int) =~= mv);
    }

    /// The header fields of a tabular array, separated by `,`.
    fn write_fields(&self, fields: &Vec<String>, buf: &mut String)
        ensures
            final(buf)@ == old(buf)@ + php_fields_text(crate::encoder::str_views(fields@)),
    {
        let ghost f = crate::encoder::str_views(fields@);
        let mut i: usize = 0;
        while i < fields.len()
            invariant
                i <= fields@.len() == f.len(),
                f == crate::encoder::str_views(fields@),
                buf@ == old(buf)@ + php_fields_text(f.take(i as int)),
            decreases fields@.len() - i,
        {
            if i > 0 {
                push_char(buf, ',');
            }
            self.inner.write_key(fields[i].as_str(), buf);
            proof {
                let t = f.take(i + 1);
                assert(t.drop_last() =~= f.take(i as int));
                assert(t.last() == f[i as int]);
                assert(buf@ =~= old(buf)@ + php_fields_text(t));
            }
            i = i + 1;
        }
        assert(f.take(fields@.len() as int) =~= f);
    }

    /// The rows of a tabular array, each on a new line one level deeper.
    fn write_rows(&self, fields: &Vec<String>, m: &Vec<(PhpKey, PhpValue)>, depth: usize, buf: &mut String)
        requires
            self.spec_indent() * (depth + 1) <= usize::MAX,
            depth + 1 <= usize::MAX,
        ensures
            final(buf)@ == old(buf)@ + php_rows_text(
                self.spec_indent(),
                crate::encoder::str_views(fields@),
                php_entries_view(m@),
                depth as nat,
            ),
    {
        let ghost ind = self.spec_indent();
        let ghost f = crate::encoder::str_views(fields@);
        let ghost mv = php_entries_view(m@);
        proof {
            lemma_php_entries_view(m@);
        }
        let mut i: usize = 0;
        while i < m.len()
            invariant
                i <= m@.len() == mv.len(),
                mv == php_entries_view(m@),
                ind == self.spec_indent(),
                f == crate::encoder::str_views(fields@),
                ind * (depth + 1) <= usize::MAX,
                depth + 1 <= usize::MAX,
                forall|j: int| 0 <= j < m@.len() ==> #[trigger] mv[j] == (key_view(m@[j].0), php_view(m@[j].1)),
                buf@ == old(buf)@ + php_rows_text(ind, f, mv.take(i as int), depth as nat),
            decreases m@.len() - i,
        {
            proof {
                assert(mv[i as int].1 == php_view(m@[i as int].1));
            }
            match &m[i].1 {
                PhpValue::Array(row) => {
                    push_char(buf, '\n');
                    self.inner.write_indent(depth + 1, buf);
                    self.write_row(fields, row, buf);
                },
                _ => {},
            }
            proof {
                let t = mv.take(i + 1);
                assert(t.drop_last() =~= mv.take(i as int));
                assert(t.last() == mv[i as int]);
                assert(buf@ =~= old(buf)@ + php_rows_text(ind, f, t, depth as nat));
            }
            i = i + 1;
        }
        assert(mv.take(m@.len() as int) =~= mv);
    }

    /// The cells of a row, separated by `, `.
    fn write_row(&self, fields: &Vec<String>, row: &Vec<(PhpKey, PhpValue)>, buf: &mut String)
        ensures
            final(buf)@ == old(buf)@ + php_row_text(
                php_entries_view(row@),
                crate::encoder::str_views(fields@),
            ),
    {
        let ghost f = crate::encoder::str_views(fields@);
        let ghost rv = php_entries_view(row@);
        let mut i: usize = 0;
        while i < fields.len()
            invariant
                i <= fields@.len() == f.len(),
                f == crate::encoder::str_views(fields@),
                rv == php_entries_view(row@),
                buf@ == old(buf)@ + php_row_text(rv, f.take(i as int)),
            decreases fields@.len() - i,
        {
            if i > 0 {
                push_chars(buf, &[',', ' ']);
            }
            self.write_cell(row, &fields[i], buf);
            proof {
                let t = f.take(i + 1);
                assert(t.drop_last() =~= f.take(i as int));
                assert(t.last() == f[i as int]);
                assert(buf@ =~= old(buf)@ + php_row_text(rv, t));
            }
            i = i + 1;
        }
        assert(f.take(fields@.len() as int) =~= f);
    }

    /// The cell of a row under a field.
    fn write_cell(&self, row: &Vec<(PhpKey, PhpValue)>, name: &String, buf: &mut String)
        ensures
            final(buf)@ == old(buf)@ + php_cell(php_entries_view(row@), name@),
    {
        let ghost rv = php_entries_view(row@);
        proof {
            lemma_php_entries_view(row@);
        }
        let mut i: usize = 0;
        while i < row.len()
            invariant
                i <= row@.len() == rv.len(),
                rv == php_entries_view(row@),
                forall|j: int| 0 <= j < row@.len() ==> #[trigger] rv[j] == (key_view(row@[j].0), php_view(row@[j].1)),
                name_index(rv, name@, 0) == name_index(rv, name@, i as int),
                buf@ == old(buf)@,
            decreases row@.len() - i,
        {
            proof {
                assert(rv[i as int] == (key_view(row@[i as int].0), php_view(row@[i as int].1)));
            }
            match &row[i].0 {
                PhpKey::Name(s) => {
                    if *s == *name {
                        self.write_prim(&row[i].1, buf);
                        return;
                    }
                },
                PhpKey::Index(_) => {},
            }
            i = i + 1;
        }
        push_chars(buf, &['n', 'u', 'l', 'l']);
    }

    /// The fields of a tabular array, if the entries make one.
    fn tabular_fields(&self, m: &Vec<(PhpKey, PhpValue)>) -> (r: Option<Vec<String>>)
        ensures
            match r {
                Some(f) => php_tabular_fields(php_entries_view(m@)) == Some(crate::encoder::str_views(f@)),
                None => php_tabular_fields(php_entries_view(m@)) is None,
            },
    {
        let ghost mv = php_entries_view(m@);
        proof {
            lemma_php_entries_view(m@);
        }
        if m.len() == 0 {
            return None;
        }
        proof {
            assert(mv[0] == (key_view(m@[0].0), php_view(m@[0].1)));
        }
        let first = match &m[0].1 {
            PhpValue::Array(first) => first,
            _ => {
                return None;
            },
        };
        let ghost fv = php_entries_view(first@);
        proof {
            lemma_php_entries_view(first@);
        }
        if first.len() == 0 || is_sequential(first) {
            return None;
        }
        let mut fields: Vec<String> = Vec::new();
        let mut i: usize = 0;
        while i < first.len()
            invariant
                i <= first@.len() == fv.len(),
                fv == php_entries_view(first@),
                mv == php_entries_view(m@),
                mv.len() > 0,
                mv[0].1 == PhpModel::Array(fv),
                fv.len() > 0,
                !sequential(fv),
                forall|j: int| 0 <= j < first@.len() ==> #[trigger] fv[j] == (key_view(first@[j].0), php_view(first@[j].1)),
                fields@.len() == i,
                forall|j: int| 0 <= j < i ==> !is_php_array(#[trigger] fv[j].1),
                forall|j: int| 0 <= j < i ==> (#[trigger] fv[j]).0 is Name,
                forall|j: int| 0 <= j < i ==> #[trigger] fields@[j]@ == key_str(fv[j].0),
            decreases first@.len() - i,
        {
            proof {
                assert(fv[i as int] == (key_view(first@[i as int].0), php_view(first@[i as int].1)));
            }
            match &first[i].1 {
                PhpValue::Array(_) => {
                    proof {
                        assert(is_php_array(fv[i as int].1));
                    }
                    return None;
                },
                _ => {},
            }
            match &first[i].0 {
                PhpKey::Name(s) => {
                    fields.push(s.clone());
                },
                PhpKey::Index(_) => {
                    return None;
                },
            }
            i = i + 1;
        }
        let ghost f = crate::encoder::str_views(fields@);
        proof {
            assert(f =~= names_of(fv));
        }
        let mut j: usize = 1;
        while j < m.len()
            invariant
                1 <= j <= m@.len() == mv.len(),
                mv == php_entries_view(m@),
                mv[0].1 == PhpModel::Array(fv),
                fv.len() > 0,
                !sequential(fv),
                all_scalar(fv),
                all_names(fv),
                f == names_of(fv),
                f == crate::encoder::str_views(fields@),
                f.len() == fields@.len(),
                forall|t: int| 0 <= t < m@.len() ==> #[trigger] mv[t] == (key_view(m@[t].0), php_view(m@[t].1)),
                forall|t: int|
                    1 <= t < j ==> (#[trigger] mv[t].1 matches PhpModel::Array(ht) && matches_names(ht, f)),
            decreases m@.len() - j,
        {
            proof {
                assert(mv[j as int] == (key_view(m@[j as int].0), php_view(m@[j as int].1)));
            }
            let ht = match &m[j].1 {
                PhpValue::Array(ht) => ht,
                _ => {
                    return None;
                },
            };
            let ghost hv = php_entries_view(ht@);
            proof {
                lemma_php_entries_view(ht@);
            }
            if ht.len() != fields.len() {
                return None;
            }
            let mut idx: usize = 0;
            while idx < ht.len()
                invariant
                    idx <= ht@.len() == hv.len() == f.len() == fields@.len(),
                    hv == php_entries_view(ht@),
                    mv == php_entries_view(m@),
                    1 <= j < mv.len(),
                    mv[j as int].1 == PhpModel::Array(hv),
                    mv[0].1 == PhpModel::Array(fv),
                    fv.len() > 0,
                    !sequential(fv),
                    all_scalar(fv),
                    all_names(fv),
                    f == names_of(fv),
                    f == crate::encoder::str_views(fields@),
                    forall|t: int| 0 <= t < ht@.len() ==> #[trigger] hv[t] == (key_view(ht@[t].0), php_view(ht@[t].1)),
                    forall|t: int| 0 <= t < idx ==> !is_php_array(#[trigger] hv[t].1),
                    forall|t: int| 0 <= t < idx ==> (#[trigger] hv[t]).0 == PhpKeyModel::Name(f[t]),
                decreases ht@.len() - idx,
            {
                proof {
                    assert(hv[idx as int] == (key_view(ht@[idx as int].0), php_view(ht@[idx as int].1)));
                }
                match &ht[idx].1 {
                    PhpValue::Array(_) => {
                        proof {
                            assert(is_php_array(hv[idx as int].1));
                        }
                        return None;
                    },
                    _ => {},
                }
                match &ht[idx].0 {
                    PhpKey::Name(s) => {
                        if !(*s == fields[idx]) {
                            proof {
                                assert(s@ != f[idx as int]);
                            }
                            return None;
                        }
                    },
                    PhpKey::Index(_) => {
                        return None;
                    },
                }
                idx = idx + 1;
            }
            proof {
                assert(matches_names(hv, f));
            }
            j = j + 1;
        }
        Some(fields)
    }

    /// The items of an expanded array, each on a new line.
    fn write_items(&self, m: &Vec<(PhpKey, PhpValue)>, depth: usize, buf: &mut String)
        requires
            indent_fits(self.spec_indent(), depth as nat, php_height(PhpModel::Array(php_entries_view(m@)))),
        ensures
            final(buf)@ == old(buf)@ + php_items(self.spec_indent(), php_entries_view(m@), depth as nat),
        decreases php_height(PhpModel::Array(php_entries_view(m@))), 0int,
    {
        let ghost ind = self.spec_indent();
        let ghost mv = php_entries_view(m@);
        let ghost h = php_height(PhpModel::Array(mv));
        proof {
            lemma_php_entries_view(m@);
            lemma_php_entries_height(mv);
        }
        let mut i: usize = 0;
        while i < m.len()
            invariant
                i <= m@.len() == mv.len(),
                mv == php_entries_view(m@),
                ind == self.spec_indent(),
                h == php_height(PhpModel::Array(mv)),
                indent_fits(ind, depth as nat, h),
                forall|j: int| 0 <= j < m@.len() ==> #[trigger] mv[j] == (key_view(m@[j].0), php_view(m@[j].1)),
                forall|j: int| 0 <= j < mv.len() ==> php_height(#[trigger] mv[j].1) <= php_entries_height(mv),
                buf@ == old(buf)@ + php_items(ind, mv.take(i as int), depth as nat),
            decreases m@.len() - i,
        {
            push_char(buf, '\n');
            proof {
                assert(mv[i as int] == (key_view(m@[i as int].0), php_view(m@[i as int].1)));
                assert(php_height(mv[i as int].1) <= php_entries_height(mv));
                lemma_fits_child(ind, depth as nat, h, 0, php_height(m@[i as int].1@) + 1);
            }
            self.write_item(&m[i].1, depth, buf);
            proof {
                let t = mv.take(i + 1);
                assert(t.drop_last() =~= mv.take(i as int));
                assert(t.last() == mv[i as int]);
                assert(buf@ =~= old(buf)@ + php_items(ind, t, depth as nat));
            }
            i = i + 1;
        }
        assert(mv.take(m@.len() as int) =~= mv);
    }

    /// One item of an expanded array, one level deeper than the array.
    fn write_item(&self, v: &PhpValue, depth: usize, buf: &mut String)
        requires
            indent_fits(self.spec_indent(), depth as nat, php_height(v@) + 1),
        ensures
            final(buf)@ == old(buf)@ + php_item(self.spec_indent(), v@, depth as nat),
        decreases php_height(v@), 2int,
    {
        self.inner.indent_is_positive();
        proof {
            use_type_invariant(self);
            lemma_fits(self.spec_indent(), depth as nat, php_height(v@) + 1, 1);
            lemma_fits_child(self.spec_indent(), depth as nat, php_height(v@) + 1, 1, php_height(v@));
        }
        match v {
            PhpValue::Array(inner) => {
                proof {
                    lemma_php_entries_view(inner@);
                }
                if inner.len() == 0 {
                    self.inner.write_indent(depth + 1, buf);
                    push_chars(buf, &['-', ' ', '{', '}']);
                } else if is_sequential(inner) {
                    self.inner.write_indent(depth + 1, buf);
                    push_chars(buf, &['-', ' ']);
                    self.write_array(inner, depth + 1, buf);
                } else {
                    self.write_list_item(inner, depth + 1, buf);
                }
            },
            _ => {
                self.inner.write_indent(depth + 1, buf);
                push_chars(buf, &['-', ' ']);
                self.write_prim(v, buf);
            },
        }
        assert(buf@ =~= old(buf)@ + php_item(self.spec_indent(), v@, depth as nat));
    }

    /// An array with keys written as a list item at `depth`.
    fn write_list_item(&self, m: &Vec<(PhpKey, PhpValue)>, depth: usize, buf: &mut String)
        requires
            indent_fits(self.spec_indent(), depth as nat, php_height(PhpModel::Array(php_entries_view(m@)))),
        ensures
            final(buf)@ == old(buf)@ + php_list_item(self.spec_indent(), php_entries_view(m@), depth as nat),
        decreases php_height(PhpModel::Array(php_entries_view(m@))), 1int,
    {
        self.inner.indent_is_positive();
        proof {
            use_type_invariant(self);
        }
        let ghost ind = self.spec_indent();
        let ghost mv = php_entries_view(m@);
        let ghost h = php_height(PhpModel::Array(mv));
        proof {
            lemma_php_entries_view(m@);
            lemma_php_entries_height(mv);
            lemma_fits(ind, depth as nat, h, 0);
            lemma_fits(ind, depth as nat, h, 1);
        }
        if m.len() == 0 {
            self.inner.write_indent(depth, buf);
            push_chars(buf, &['-', ' ', '{', '}']);
            return;
        }
        self.inner.write_indent(depth, buf);
        push_chars(buf, &['-', ' ']);
        self.write_php_key(&m[0].0, buf);
        proof {
            assert(mv[0] == (key_view(m@[0].0), php_view(m@[0].1)));
            assert(php_height(mv[0].1) <= php_entries_height(mv));
            lemma_fits_child(ind, depth as nat, h, 0, php_height(m@[0].1@) + 1);
        }
        self.write_first(&m[0].1, depth, buf);
        let ghost head = buf@;
        let mut i: usize = 1;
        while i < m.len()
            invariant
                1 <= i <= m@.len() == mv.len(),
                mv == php_entries_view(m@),
                ind == self.spec_indent(),
                ind >= 1,
                h == php_height(PhpModel::Array(mv)),
                indent_fits(ind, depth as nat, h),
                ind * (depth + 1) <= usize::MAX,
                depth + 1 <= usize::MAX,
                forall|j: int| 0 <= j < m@.len() ==> #[trigger] mv[j] == (key_view(m@[j].0), php_view(m@[j].1)),
                forall|j: int| 0 <= j < mv.len() ==> php_height(#[trigger] mv[j].1) <= php_entries_height(mv),
                buf@ == head + php_rest(ind, mv.subrange(1, i as int), depth as nat),
            decreases m@.len() - i,
        {
            let ghost before = buf@;
            push_char(buf, '\n');
            self.inner.write_indent(depth + 1, buf);
            self.write_php_key(&m[i].0, buf);
            proof {
                assert(mv[i as int] == (key_view(m@[i as int].0), php_view(m@[i as int].1)));
                assert(php_height(mv[i as int].1) <= php_entries_height(mv));
                lemma_fits_child(ind, depth as nat, h, 0, php_height(m@[i as int].1@) + 1);
            }
            self.write_rest_value(&m[i].1, depth, buf);
            proof {
                let t = mv.subrange(1, i + 1);
                assert(t.drop_last() =~= mv.subrange(1, i as int));
                assert(t.last() == mv[i as int]);
                assert(buf@ =~= head + php_rest(ind, t, depth as nat));
            }
            i = i + 1;
        }
        proof {
            assert(mv.subrange(1, m@.len() as int) =~= mv.drop_first());
        }
        assert(buf@ =~= old(buf)@ + php_list_item(ind, mv, depth as nat));
    }

    /// What follows the key of the first entry of a list item.
    fn write_first(&self, v: &PhpValue, depth: usize, buf: &mut String)
        requires
            indent_fits(self.spec_indent(), depth as nat, php_height(v@) + 1),
        ensures
            final(buf)@ == old(buf)@ + php_first(self.spec_indent(), v@, depth as nat),
        decreases php_height(v@), 2int,
    {
        self.inner.indent_is_positive();
        proof {
            use_type_invariant(self);
            lemma_fits(self.spec_indent(), depth as nat, php_height(v@) + 1, 2);
            lemma_fits_child(self.spec_indent(), depth as nat, php_height(v@) + 1, 1, php_height(v@));
            lemma_fits_child(self.spec_indent(), depth as nat, php_height(v@) + 1, 2, php_height(v@));
        }
        match v {
            PhpValue::Array(inner) => {
                proof {
                    lemma_php_entries_view(inner@);
                }
                if inner.len() == 0 {
                    push_chars(buf, &[':', ' ', '{', '}']);
                } else if is_sequential(inner) {
                    self.write_array(inner, depth + 1, buf);
                } else {
                    push_chars(buf, &[':', '\n']);
                    self.write_object(inner, depth + 2, buf);
                }
            },
            _ => {
                push_chars(buf, &[':', ' ']);
                self.write_prim(v, buf);
            },
        }
        assert(buf@ =~= old(buf)@ + php_first(self.spec_indent(), v@, depth as nat));
    }

    /// What follows the key of a later entry of a list item.
    fn write_rest_value(&self, v: &PhpValue, depth: usize, buf: &mut String)
        requires
            indent_fits(self.spec_indent(), depth as nat, php_height(v@) + 1),
        ensures
            final(buf)@ == old(buf)@ + php_rest_value(self.spec_indent(), v@, depth as nat),
        decreases php_height(v@), 2int,
    {
        self.inner.indent_is_positive();
        proof {
            use_type_invariant(self);
            lemma_fits(self.spec_indent(), depth as nat, php_height(v@) + 1, 2);
            lemma_fits_child(self.spec_indent(), depth as nat, php_height(v@) + 1, 1, php_height(v@));
            lemma_fits_child(self.spec_indent(), depth as nat, php_height(v@) + 1, 2, php_height(v@));
        }
        match v {
            PhpValue::Array(inner) => {
                proof {
                    lemma_php_entries_view(inner@);
                }
                if inner.len() == 0 {
                    push_chars(buf, &[':', ' ', '[', ']']);
                } else if is_sequential(inner) {
                    self.write_array(inner, depth + 1, buf);
                } else {
                    push_chars(buf, &[':', '\n']);
                    self.write_object(inner, depth + 2, buf);
                }
            },
            _ => {
                push_chars(buf, &[':', ' ']);
                self.write_prim(v, buf);
            },
        }
        assert(buf@ =~= old(buf)@ + php_rest_value(self.spec_indent(), v@, depth as nat));
    }
}

} // verus!
