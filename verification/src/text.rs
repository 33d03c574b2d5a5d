//! Character-level helpers shared by the trie, the codec and the query parser.
use vstd::prelude::*;

verus! {

/// The characters of `s`, in order.
///
/// Trusted: `str::chars` collected into a `Vec`; the std documentation states that
/// `chars` yields the string's `char`s in order, which is exactly `s@`.
#[verifier::external_body]
pub(crate) fn str_chars(s: &str) -> (r: Vec<char>)
    ensures
        r@ == s@,
{
    s.chars().collect()
}

/// Appends one character to a string.
///
/// Trusted: `String::push`, documented as appending the given `char` to the end.
#[verifier::external_body]
pub(crate) fn push_char(s: &mut String, c: char)
    ensures
        final(s)@ == old(s)@.push(c),
{
    s.push(c)
}

/// The string made of `v[from..to]`.
pub(crate) fn chars_to_string(v: &Vec<char>, from: usize, to: usize) -> (s: String)
    requires
        from <= to <= v.len(),
    ensures
        s@ == v@.subrange(from as int, to as int),
{
    let mut s = String::new();
    let mut i = from;
    while i < to
        invariant
            from <= i <= to <= v.len(),
            s@ == v@.subrange(from as int, i as int),
        decreases to - i,
    {
        push_char(&mut s, v[i]);
        assert(v@.subrange(from as int, i + 1) == v@.subrange(from as int, i as int).push(v@[i as int]));
        i += 1;
    }
    s
}

/// Concatenation of two strings.
pub(crate) fn concat_strings(a: &String, b: &String) -> (s: String)
    ensures
        s@ == a@ + b@,
{
    let mut s = a.clone();
    s.append(b.as_str());
    s
}

/// Length of the longest common prefix of `a[af..]` and `b[bf..]`.
pub(crate) fn common_prefix_len(a: &Vec<char>, af: usize, b: &Vec<char>, bf: usize) -> (n: usize)
    requires
        af <= a.len(),
        bf <= b.len(),
    ensures
        af + n <= a.len(),
        bf + n <= b.len(),
        a@.subrange(af as int, af + n) == b@.subrange(bf as int, bf + n),
        af + n < a.len() && bf + n < b.len() ==> a@[af + n] != b@[bf + n],
{
    let mut n: usize = 0;
    while af + n < a.len() && bf + n < b.len() && a[af + n] == b[bf + n]
        invariant
            af + n <= a.len(),
            bf + n <= b.len(),
            a@.subrange(af as int, af + n) == b@.subrange(bf as int, bf + n),
        decreases a.len() - n,
    {
        assert(a@.subrange(af as int, af + n + 1) == a@.subrange(af as int, af + n).push(a@[af + n]));
        assert(b@.subrange(bf as int, bf + n + 1) == b@.subrange(bf as int, bf + n).push(b@[bf + n]));
        n += 1;
    }
    n
}

/// Lexicographic order on character sequences (by code point), the order of
/// `String`'s `Ord`.
pub open spec fn key_lt(a: Seq<char>, b: Seq<char>) -> bool
    decreases a.len(),
{
    if b.len() == 0 {
        false
    } else if a.len() == 0 {
        true
    } else if a[0] != b[0] {
        (a[0] as int) < (b[0] as int)
    } else {
        key_lt(a.drop_first(), b.drop_first())
    }
}

pub proof fn lemma_key_lt_irreflexive(a: Seq<char>)
    ensures
        !key_lt(a, a),
    decreases a.len(),
{
    if a.len() > 0 {
        lemma_key_lt_irreflexive(a.drop_first());
    }
}

pub proof fn lemma_key_lt_prefix(p: Seq<char>, a: Seq<char>, b: Seq<char>)
    ensures
        key_lt(p + a, p + b) == key_lt(a, b),
    decreases p.len(),
{
    if p.len() > 0 {
        lemma_key_lt_prefix(p.drop_first(), a, b);
        assert((p + a).drop_first() =~= p.drop_first() + a);
        assert((p + b).drop_first() =~= p.drop_first() + b);
        assert((p + a)[0] == p[0]);
        assert((p + b)[0] == p[0]);
    } else {
        assert(p + a =~= a);
        assert(p + b =~= b);
    }
}

pub proof fn lemma_key_lt_extension(p: Seq<char>, b: Seq<char>)
    requires
        b.len() > 0,
    ensures
        key_lt(p, p + b),
    decreases p.len(),
{
    if p.len() > 0 {
        lemma_key_lt_extension(p.drop_first(), b);
        assert((p + b).drop_first() =~= p.drop_first() + b);
        assert((p + b)[0] == p[0]);
    }
}

pub proof fn lemma_key_lt_first(a: Seq<char>, b: Seq<char>)
    requires
        a.len() > 0,
        b.len() > 0,
        (a[0] as int) < (b[0] as int),
    ensures
        key_lt(a, b),
{
}

pub proof fn lemma_key_lt_asymmetric(a: Seq<char>, b: Seq<char>)
    requires
        key_lt(a, b),
    ensures
        !key_lt(b, a),
        a != b,
    decreases a.len(),
{
    lemma_key_lt_irreflexive(a);
    if a.len() > 0 && b.len() > 0 && a[0] == b[0] {
        lemma_key_lt_asymmetric(a.drop_first(), b.drop_first());
    }
}

pub proof fn lemma_key_lt_transitive(a: Seq<char>, b: Seq<char>, c: Seq<char>)
    requires
        key_lt(a, b),
        key_lt(b, c),
    ensures
        key_lt(a, c),
    decreases a.len(),
{
    if a.len() > 0 && b.len() > 0 && c.len() > 0 && a[0] == b[0] && b[0] == c[0] {
        lemma_key_lt_transitive(a.drop_first(), b.drop_first(), c.drop_first());
    }
}

/// Compares two strings in `String` order: `true` when `a < b`.
pub(crate) fn str_less(a: &str, b: &str) -> (r: bool)
    ensures
        r == key_lt(a@, b@),
{
    let av = str_chars(a);
    let bv = str_chars(b);
    let n = common_prefix_len(&av, 0, &bv, 0);
    proof {
        assert(av@ =~= av@.take(n as int) + av@.skip(n as int));
        assert(bv@ =~= bv@.take(n as int) + bv@.skip(n as int));
        assert(av@.take(n as int) =~= av@.subrange(0, n as int));
        assert(bv@.take(n as int) =~= bv@.subrange(0, n as int));
        lemma_key_lt_prefix(av@.take(n as int), av@.skip(n as int), bv@.skip(n as int));
    }
    if n == bv.len() {
        false
    } else if n == av.len() {
        true
    } else {
        av[n] < bv[n]
    }
}

/// The Unicode `White_Space` property of a character: tab to carriage return,
/// space, next line, no-break space, ogham space mark, the spaces from en quad to
/// hair space, line and paragraph separator, narrow no-break space, medium
/// mathematical space and ideographic space.
pub open spec fn unicode_white_space(c: char) -> bool {
    let n = c as int;
    ||| 0x09 <= n <= 0x0D
    ||| n == 0x20
    ||| n == 0x85
    ||| n == 0xA0
    ||| n == 0x1680
    ||| 0x2000 <= n <= 0x200A
    ||| n == 0x2028
    ||| n == 0x2029
    ||| n == 0x202F
    ||| n == 0x205F
    ||| n == 0x3000
}

/// Name for "alphabetic or numeric" in Unicode's sense.
pub uninterp spec fn unicode_alphanumeric(c: char) -> bool;

/// Name for the Unicode lowercase mapping of a string.
pub uninterp spec fn unicode_lowercase(s: Seq<char>) -> Seq<char>;

pub open spec fn is_ascii_char(c: char) -> bool {
    (c as int) < 128
}

pub open spec fn is_ascii_digit(c: char) -> bool {
    '0' <= c && c <= '9'
}

pub open spec fn is_ascii_alphanumeric(c: char) -> bool {
    is_ascii_digit(c) || ('a' <= c && c <= 'z') || ('A' <= c && c <= 'Z')
}

pub open spec fn ascii_lower(c: char) -> char {
    if 'A' <= c && c <= 'Z' {
        ((c as int) + 32) as char
    } else {
        c
    }
}

/// Whether `c` is whitespace.
///
/// Trusted: `char::is_whitespace`, documented as the Unicode `White_Space` property,
/// whose members are listed in `unicode_white_space`; among ASCII characters that is
/// space, tab, line feed, vertical tab, form feed and carriage return.
#[verifier::external_body]
pub(crate) fn char_is_whitespace(c: char) -> (b: bool)
    ensures
        b == unicode_white_space(c),
        is_ascii_char(c) ==> (b <==> (c == ' ' || ('\t' <= c && c <= '\r'))),
{
    c.is_whitespace()
}

/// Whether `c` is alphanumeric.
///
/// Trusted: `char::is_alphanumeric`, documented as Unicode `Alphabetic` or `Numeric`;
/// among ASCII characters that is the letters and the digits.
#[verifier::external_body]
pub(crate) fn char_is_alphanumeric(c: char) -> (b: bool)
    ensures
        b == unicode_alphanumeric(c),
        is_ascii_char(c) ==> (b <==> is_ascii_alphanumeric(c)),
{
    c.is_alphanumeric()
}

/// The lowercase form of `s`.
///
/// Trusted: `str::to_lowercase`, documented as the Unicode lowercase mapping; on ASCII
/// text it lowers `A`..`Z` and keeps every other character.
#[verifier::external_body]
pub(crate) fn str_to_lowercase(s: &str) -> (r: String)
    ensures
        r@ == unicode_lowercase(s@),
        (forall|i: int| 0 <= i < s@.len() ==> is_ascii_char(#[trigger] s@[i])) ==> r@ == s@.map_values(
            |c: char| ascii_lower(c),
        ),
{
    s.to_lowercase()
}

/// Value of a run of decimal digits.
pub open spec fn digits_value(d: Seq<char>) -> int
    decreases d.len(),
{
    if d.len() == 0 {
        0
    } else {
        digits_value(d.drop_last()) * 10 + ((d.last() as int) - ('0' as int))
    }
}

pub open spec fn all_digits(d: Seq<char>) -> bool {
    forall|i: int| 0 <= i < d.len() ==> is_ascii_digit(#[trigger] d[i])
}

/// What `str::parse::<i64>` gives: an optional sign followed by at least one decimal
/// digit, in range.
pub open spec fn parse_i64_spec(t: Seq<char>) -> Option<i64> {
    let neg = t.len() > 0 && t[0] == '-';
    let signed = t.len() > 0 && (t[0] == '-' || t[0] == '+');
    let d = if signed {
        t.drop_first()
    } else {
        t
    };
    let v = if neg {
        -digits_value(d)
    } else {
        digits_value(d)
    };
    if d.len() == 0 || !all_digits(d) || v < i64::MIN || v > i64::MAX {
        None
    } else {
        Some(v as i64)
    }
}

/// Parses an `i64`.
///
/// Trusted: `str::parse::<i64>` (`i64::from_str`), documented to accept an optional
/// `+` or `-` sign followed by decimal digits, failing when the value does not fit.
#[verifier::external_body]
pub(crate) fn parse_i64(t: &str) -> (r: Option<i64>)
    ensures
        r == parse_i64_spec(t@),
{
    t.parse::<i64>().ok()
}

/// Decimal text of an integer, with a leading `-` when negative.
pub open spec fn int_decimal(n: int) -> Seq<char> {
    if n < 0 {
        seq!['-'] + crate::codec::decimal((-n) as nat)
    } else {
        crate::codec::decimal(n as nat)
    }
}

/// Decimal text of an `i64`.
///
/// Trusted: `i64`'s `Display` through `to_string`, which writes the decimal digits
/// with a leading `-` for negative values.
#[verifier::external_body]
pub(crate) fn i64_to_string(n: i64) -> (r: String)
    ensures
        r@ == int_decimal(n as int),
{
    n.to_string()
}

/// Whether a string equals a literal.
pub(crate) fn str_eq(a: &str, b: &str) -> (r: bool)
    ensures
        r == (a@ == b@),
{
    let av = str_chars(a);
    let bv = str_chars(b);
    if av.len() != bv.len() {
        return false;
    }
    let n = common_prefix_len(&av, 0, &bv, 0);
    proof {
        if n == av.len() {
            assert(av@ =~= av@.subrange(0, n as int));
            assert(bv@ =~= bv@.subrange(0, n as int));
        }
    }
    n == av.len()
}

} // verus!
