//! Character-level text operations shared by the encoder and the decoders:
//! whitespace, trimming, searching, line splitting and decimal integers.
use vstd::prelude::*;
use vstd::utf8::encode_utf8;

verus! {

// ---------------------------------------------------------------------------
// Whitespace
// ---------------------------------------------------------------------------
/// The Unicode `White_Space` property, which `char::is_whitespace` and
/// `str::trim` go by.
pub open spec fn is_ws(c: char) -> bool {
    let u = c as u32;
    (0x9 <= u && u <= 0xD) || u == 0x20 || u == 0x85 || u == 0xA0 || u == 0x1680 || (0x2000 <= u
        && u <= 0x200A) || u == 0x2028 || u == 0x2029 || u == 0x202F || u == 0x205F || u == 0x3000
}

/// The ASCII whitespace of `u8::is_ascii_whitespace`: tab, line feed, form feed,
/// carriage return and space.
pub open spec fn is_ascii_ws(c: char) -> bool {
    c == '\t' || c == '\n' || c == '\x0C' || c == '\r' || c == ' '
}

pub fn char_is_ws(c: char) -> (r: bool)
    ensures
        r == is_ws(c),
{
    let u = c as u32;
    (0x9 <= u && u <= 0xD) || u == 0x20 || u == 0x85 || u == 0xA0 || u == 0x1680 || (0x2000 <= u
        && u <= 0x200A) || u == 0x2028 || u == 0x2029 || u == 0x202F || u == 0x205F || u == 0x3000
}

pub open spec fn is_digit(c: char) -> bool {
    '0' <= c && c <= '9'
}

// ---------------------------------------------------------------------------
// Trimming
// ---------------------------------------------------------------------------
/// The first index at or after `i` that holds no whitespace (or the length).
pub open spec fn lead_ws(s: Seq<char>, i: int) -> int
    decreases s.len() - i,
{
    if 0 <= i < s.len() && is_ws(s[i]) {
        lead_ws(s, i + 1)
    } else {
        i
    }
}

/// The end of `s[lo..j]` once trailing whitespace is removed.
pub open spec fn trail_ws(s: Seq<char>, lo: int, j: int) -> int
    decreases j - lo,
{
    if lo < j && j <= s.len() && is_ws(s[j - 1]) {
        trail_ws(s, lo, j - 1)
    } else {
        j
    }
}

/// `str::trim`: leading and trailing whitespace removed.
pub open spec fn trim(s: Seq<char>) -> Seq<char> {
    let a = lead_ws(s, 0);
    s.subrange(a, trail_ws(s, a, s.len() as int))
}

pub proof fn lemma_lead_ws(s: Seq<char>, i: int)
    requires
        0 <= i <= s.len(),
    ensures
        i <= lead_ws(s, i) <= s.len(),
        forall|k: int| i <= k < lead_ws(s, i) ==> is_ws(#[trigger] s[k]),
        lead_ws(s, i) < s.len() ==> !is_ws(s[lead_ws(s, i)]),
    decreases s.len() - i,
{
    if i < s.len() && is_ws(s[i]) {
        lemma_lead_ws(s, i + 1);
    }
}

pub proof fn lemma_trail_ws(s: Seq<char>, lo: int, j: int)
    requires
        0 <= lo <= j <= s.len(),
    ensures
        lo <= trail_ws(s, lo, j) <= j,
        forall|k: int| trail_ws(s, lo, j) <= k < j ==> is_ws(#[trigger] s[k]),
        trail_ws(s, lo, j) > lo ==> !is_ws(s[trail_ws(s, lo, j) - 1]),
    decreases j - lo,
{
    if lo < j && is_ws(s[j - 1]) {
        lemma_trail_ws(s, lo, j - 1);
    }
}

/// The bounds of `s` once trimmed.
pub fn trim_bounds(s: &[char]) -> (r: (usize, usize))
    ensures
        r.0 == lead_ws(s@, 0),
        r.1 == trail_ws(s@, r.0 as int, s@.len() as int),
        r.0 <= r.1 <= s@.len(),
        trim(s@) == s@.subrange(r.0 as int, r.1 as int),
{
    let n = s.len();
    let mut a: usize = 0;
    while a < n && char_is_ws(s[a])
        invariant
            a <= n == s@.len(),
            lead_ws(s@, 0) == lead_ws(s@, a as int),
        decreases n - a,
    {
        a = a + 1;
    }
    let mut b: usize = n;
    while b > a && char_is_ws(s[b - 1])
        invariant
            a <= b <= n == s@.len(),
            trail_ws(s@, a as int, n as int) == trail_ws(s@, a as int, b as int),
        decreases b,
    {
        b = b - 1;
    }
    (a, b)
}

/// A copy of `s[lo..hi]`.
pub fn slice_chars(s: &[char], lo: usize, hi: usize) -> (r: Vec<char>)
    requires
        lo <= hi <= s@.len(),
    ensures
        r@ == s@.subrange(lo as int, hi as int),
{
    let mut r: Vec<char> = Vec::new();
    let mut i = lo;
    while i < hi
        invariant
            lo <= i <= hi <= s@.len(),
            r@ == s@.subrange(lo as int, i as int),
        decreases hi - i,
    {
        r.push(s[i]);
        i = i + 1;
        assert(r@ =~= s@.subrange(lo as int, i as int));
    }
    r
}

/// `s` with leading and trailing whitespace removed.
pub fn trim_chars(s: &[char]) -> (r: Vec<char>)
    ensures
        r@ == trim(s@),
{
    let (a, b) = trim_bounds(s);
    slice_chars(s, a, b)
}

/// `s[lo..hi]` with leading and trailing whitespace removed.
pub fn trim_range(s: &[char], lo: usize, hi: usize) -> (r: Vec<char>)
    requires
        lo <= hi <= s@.len(),
    ensures
        r@ == trim(s@.subrange(lo as int, hi as int)),
{
    let t = slice_chars(s, lo, hi);
    trim_chars(t.as_slice())
}

// ---------------------------------------------------------------------------
// Searching
// ---------------------------------------------------------------------------
/// The first index at or after `i` that holds `c`, or -1.
pub open spec fn find_from(s: Seq<char>, c: char, i: int) -> int
    decreases s.len() - i,
{
    if i < 0 || i >= s.len() {
        -1
    } else if s[i] == c {
        i
    } else {
        find_from(s, c, i + 1)
    }
}

/// The first index that holds `c`, or -1.
pub open spec fn find(s: Seq<char>, c: char) -> int {
    find_from(s, c, 0)
}

/// Whether `s` holds `c`.
pub open spec fn contains_char(s: Seq<char>, c: char) -> bool {
    find(s, c) >= 0
}

pub proof fn lemma_find_from(s: Seq<char>, c: char, i: int)
    requires
        0 <= i,
    ensures
        find_from(s, c, i) == -1 || (i <= find_from(s, c, i) < s.len() && s[find_from(s, c, i)]
            == c),
        find_from(s, c, i) == -1 ==> forall|k: int| i <= k < s.len() ==> s[k] != c,
        find_from(s, c, i) != -1 ==> forall|k: int| i <= k < find_from(s, c, i) ==> s[k] != c,
    decreases s.len() - i,
{
    if i < s.len() && s[i] != c {
        lemma_find_from(s, c, i + 1);
    }
}

/// If no index in `[i, j)` holds `c`, searching from `i` finds what searching
/// from `j` finds.
pub proof fn lemma_find_from_skip(s: Seq<char>, c: char, i: int, j: int)
    requires
        0 <= i <= j,
        forall|k: int| i <= k < j && k < s.len() ==> s[k] != c,
    ensures
        find_from(s, c, i) == find_from(s, c, j) || (j > s.len() && find_from(s, c, i) == -1),
    decreases j - i,
{
    if i < j && i < s.len() {
        lemma_find_from_skip(s, c, i + 1, j);
    }
}

/// The first index at or after `i` that holds `c`.
pub fn find_char_from(s: &[char], c: char, i: usize) -> (r: Option<usize>)
    ensures
        match r {
            Some(k) => k as int == find_from(s@, c, i as int),
            None => find_from(s@, c, i as int) == -1,
        },
{
    let n = s.len();
    let mut k = i;
    while k < n
        invariant
            i <= k,
            n == s@.len(),
            find_from(s@, c, i as int) == find_from(s@, c, k as int),
        decreases n - k,
    {
        if s[k] == c {
            return Some(k);
        }
        k = k + 1;
    }
    None
}

/// The first index that holds `c`.
pub fn find_char(s: &[char], c: char) -> (r: Option<usize>)
    ensures
        match r {
            Some(k) => k as int == find(s@, c),
            None => find(s@, c) == -1,
        },
{
    find_char_from(s, c, 0)
}

/// Whether `s` holds `c`.
pub fn has_char(s: &[char], c: char) -> (r: bool)
    ensures
        r == contains_char(s@, c),
{
    match find_char(s, c) {
        Some(_) => true,
        None => false,
    }
}

// ---------------------------------------------------------------------------
// Prefixes and suffixes
// ---------------------------------------------------------------------------
pub open spec fn starts_with(s: Seq<char>, p: Seq<char>) -> bool {
    p.len() <= s.len() && s.subrange(0, p.len() as int) == p
}

pub open spec fn ends_with(s: Seq<char>, p: Seq<char>) -> bool {
    p.len() <= s.len() && s.subrange(s.len() - p.len(), s.len() as int) == p
}

pub fn has_prefix(s: &[char], p: &[char]) -> (r: bool)
    ensures
        r == starts_with(s@, p@),
{
    if p.len() > s.len() {
        return false;
    }
    let mut i: usize = 0;
    while i < p.len()
        invariant
            p@.len() <= s@.len(),
            i <= p@.len(),
            forall|j: int| 0 <= j < i ==> s@[j] == p@[j],
        decreases p.len() - i,
    {
        if s[i] != p[i] {
            assert(s@.subrange(0, p@.len() as int)[i as int] != p@[i as int]);
            return false;
        }
        i = i + 1;
    }
    assert(s@.subrange(0, p@.len() as int) =~= p@);
    true
}

pub fn has_suffix(s: &[char], p: &[char]) -> (r: bool)
    ensures
        r == ends_with(s@, p@),
{
    if p.len() > s.len() {
        return false;
    }
    let off = s.len() - p.len();
    let mut i: usize = 0;
    while i < p.len()
        invariant
            p@.len() <= s@.len(),
            off == s@.len() - p@.len(),
            i <= p@.len(),
            forall|j: int| 0 <= j < i ==> s@[off + j] == p@[j],
        decreases p.len() - i,
    {
        assert(off + i < s.len());
        if s[off + i] != p[i] {
            assert(s@.subrange(off as int, s@.len() as int)[i as int] != p@[i as int]);
            return false;
        }
        i = i + 1;
    }
    assert(s@.subrange(off as int, s@.len() as int) =~= p@);
    true
}

/// Whether `s` is exactly `p`.
pub fn chars_eq(s: &[char], p: &[char]) -> (r: bool)
    ensures
        r == (s@ == p@),
{
    if s.len() != p.len() {
        return false;
    }
    let b = has_prefix(s, p);
    proof {
        if b {
            assert(s@ =~= s@.subrange(0, p@.len() as int));
        } else {
            assert(s@.subrange(0, p@.len() as int) =~= s@);
        }
    }
    b
}

// ---------------------------------------------------------------------------
// Lines
// ---------------------------------------------------------------------------
/// A line as `str::lines` yields it: without its line feed, and without the
/// carriage return just before that line feed.
pub open spec fn strip_cr(s: Seq<char>) -> Seq<char> {
    if s.len() > 0 && s.last() == '\r' {
        s.drop_last()
    } else {
        s
    }
}

/// `str::lines` on `t[i..]`.
pub open spec fn lines_from(t: Seq<char>, i: int) -> Seq<Seq<char>>
    decreases t.len() - i,
{
    if i < 0 || i >= t.len() {
        Seq::empty()
    } else {
        let j = find_from(t, '\n', i);
        proof {
            lemma_find_from(t, '\n', i);
        }
        if j < i {
            seq![t.subrange(i, t.len() as int)]
        } else {
            seq![strip_cr(t.subrange(i, j))] + lines_from(t, j + 1)
        }
    }
}

/// `str::lines`: the text split at line feeds, a final line feed yielding no
/// empty last line.
pub open spec fn lines(t: Seq<char>) -> Seq<Seq<char>> {
    lines_from(t, 0)
}

/// The number of leading spaces (`trim_start_matches(' ')`).
pub open spec fn lead_spaces_from(s: Seq<char>, i: int) -> int
    decreases s.len() - i,
{
    if 0 <= i < s.len() && s[i] == ' ' {
        lead_spaces_from(s, i + 1)
    } else {
        i
    }
}

pub open spec fn lead_spaces(s: Seq<char>) -> int {
    lead_spaces_from(s, 0)
}

pub proof fn lemma_lead_spaces_from(s: Seq<char>, i: int)
    requires
        0 <= i <= s.len(),
    ensures
        i <= lead_spaces_from(s, i) <= s.len(),
        forall|k: int| i <= k < lead_spaces_from(s, i) ==> #[trigger] s[k] == ' ',
        lead_spaces_from(s, i) < s.len() ==> s[lead_spaces_from(s, i)] != ' ',
    decreases s.len() - i,
{
    if i < s.len() && s[i] == ' ' {
        lemma_lead_spaces_from(s, i + 1);
    }
}

pub fn count_lead_spaces(s: &[char]) -> (r: usize)
    ensures
        r as int == lead_spaces(s@),
        r <= s@.len(),
{
    let n = s.len();
    let mut i: usize = 0;
    while i < n && s[i] == ' '
        invariant
            i <= n == s@.len(),
            lead_spaces(s@) == lead_spaces_from(s@, i as int),
        decreases n - i,
    {
        i = i + 1;
    }
    i
}

// ---------------------------------------------------------------------------
// Conversions between strings and characters
// ---------------------------------------------------------------------------
/// The characters of `s`.
pub fn chars_of(s: &str) -> (r: Vec<char>)
    ensures
        r@ == s@,
{
    let mut r: Vec<char> = Vec::new();
    for c in it: s.chars()
        invariant
            r@ == it.seq().take(it.index() as int),
            it.seq() == s@,
    {
        r.push(c);
    }
    r
}

/// Appends one character (`String::push`).
#[verifier::external_body]
pub(crate) fn push_char(s: &mut String, c: char)
    ensures
        final(s)@ == old(s)@.push(c),
{
    s.push(c);
}

/// Appends characters one by one.
pub fn push_chars(buf: &mut String, s: &[char])
    ensures
        final(buf)@ == old(buf)@ + s@,
{
    let mut i: usize = 0;
    while i < s.len()
        invariant
            i <= s@.len(),
            buf@ == old(buf)@ + s@.subrange(0, i as int),
        decreases s.len() - i,
    {
        push_char(buf, s[i]);
        i = i + 1;
        assert(buf@ =~= old(buf)@ + s@.subrange(0, i as int));
    }
    assert(s@.subrange(0, s@.len() as int) =~= s@);
}

/// A string holding exactly the characters `s`.
pub fn string_of(s: &[char]) -> (r: String)
    ensures
        r@ == s@,
{
    let mut r = String::new();
    push_chars(&mut r, s);
    assert(r@ =~= s@);
    r
}

// ---------------------------------------------------------------------------
// UTF-8 length
// ---------------------------------------------------------------------------
pub proof fn lemma_encode_utf8_concat(a: Seq<char>, b: Seq<char>)
    ensures
        encode_utf8(a + b) == encode_utf8(a) + encode_utf8(b),
    decreases a.len(),
{
    if a.len() == 0 {
        assert(a + b =~= b);
        assert(encode_utf8(a) =~= Seq::<u8>::empty());
        assert(encode_utf8(a) + encode_utf8(b) =~= encode_utf8(b));
    } else {
        assert((a + b).drop_first() =~= a.drop_first() + b);
        lemma_encode_utf8_concat(a.drop_first(), b);
        assert(encode_utf8(a) + encode_utf8(b) =~= vstd::utf8::encode_scalar(a[0] as u32) + (
        encode_utf8(a.drop_first()) + encode_utf8(b)));
    }
}

/// The number of bytes that `c` takes in UTF-8: one below `0x80`, two below
/// `0x800`, three below `0x10000`, four above.
pub(crate) fn char_utf8_len(c: char) -> (n: usize)
    ensures
        n == encode_utf8(seq![c]).len(),
{
    let u = c as u32;
    proof {
        assert(seq![c].drop_first() =~= Seq::<char>::empty());
        assert(seq![c][0] == c);
        assert(encode_utf8(seq![c].drop_first()) =~= Seq::<u8>::empty());
        assert(encode_utf8(seq![c]) =~= vstd::utf8::encode_scalar(c as u32));
    }
    if u < 0x80 {
        1
    } else if u < 0x800 {
        2
    } else if u < 0x10000 {
        3
    } else {
        4
    }
}

pub proof fn lemma_encode_scalar_len(c: char)
    ensures
        encode_utf8(seq![c]).len() <= 4,
{
    assert(seq![c].drop_first() =~= Seq::<char>::empty());
    reveal_with_fuel(encode_utf8, 2);
}

// ---------------------------------------------------------------------------
// Decimal integers
// ---------------------------------------------------------------------------
pub open spec fn digit_char(d: nat) -> char {
    if d == 0 {
        '0'
    } else if d == 1 {
        '1'
    } else if d == 2 {
        '2'
    } else if d == 3 {
        '3'
    } else if d == 4 {
        '4'
    } else if d == 5 {
        '5'
    } else if d == 6 {
        '6'
    } else if d == 7 {
        '7'
    } else if d == 8 {
        '8'
    } else {
        '9'
    }
}

/// The decimal digits of `n`, without leading zeros.
pub open spec fn nat_text(n: nat) -> Seq<char>
    decreases n,
{
    if n < 10 {
        seq![digit_char(n)]
    } else {
        nat_text(n / 10) + seq![digit_char(n % 10)]
    }
}

/// The decimal text of `n`, with `-` in front of a negative number.
pub open spec fn int_text(n: int) -> Seq<char> {
    if n < 0 {
        seq!['-'] + nat_text((-n) as nat)
    } else {
        nat_text(n as nat)
    }
}

/// The decimal text of `n` (`itoa::Buffer::format`).
#[verifier::external_body]
pub(crate) fn i64_text(n: i64) -> (s: String)
    ensures
        s@ == int_text(n as int),
{
    itoa::Buffer::new().format(n).to_string()
}

/// The decimal text of `n` (`itoa::Buffer::format`).
#[verifier::external_body]
pub(crate) fn usize_text(n: usize) -> (s: String)
    ensures
        s@ == int_text(n as int),
{
    itoa::Buffer::new().format(n).to_string()
}

} // verus!
