//! JSON text primitives used by the deterministic node encodings.
//!
//! The structure of every encoding (field order, separators) is framed by this
//! library; the encoding of individual strings and numbers is delegated to
//! `serde_json`, whose behaviour on these values is stated below.
use vstd::prelude::*;

verus! {

/// Lower-case hexadecimal digit for `d` in `0..16`.
pub open spec fn hex_digit(d: int) -> char {
    if d < 10 {
        (('0' as int) + d) as char
    } else {
        (('a' as int) + d - 10) as char
    }
}

/// How `serde_json` writes one character inside a string literal.
pub open spec fn json_escape_char(c: char) -> Seq<char> {
    if c == '"' {
        seq!['\\', '"']
    } else if c == '\\' {
        seq!['\\', '\\']
    } else if c == '\x08' {
        seq!['\\', 'b']
    } else if c == '\t' {
        seq!['\\', 't']
    } else if c == '\n' {
        seq!['\\', 'n']
    } else if c == '\x0c' {
        seq!['\\', 'f']
    } else if c == '\r' {
        seq!['\\', 'r']
    } else if (c as int) < 0x20 {
        seq!['\\', 'u', '0', '0', hex_digit((c as int) / 16), hex_digit((c as int) % 16)]
    } else {
        seq![c]
    }
}

/// The escaped body of a JSON string literal.
pub open spec fn json_escape(s: Seq<char>) -> Seq<char>
    decreases s.len(),
{
    if s.len() == 0 {
        Seq::empty()
    } else {
        json_escape(s.drop_last()) + json_escape_char(s.last())
    }
}

/// The JSON string literal for `s`, quotes included.
pub open spec fn json_quote(s: Seq<char>) -> Seq<char> {
    seq!['"'] + json_escape(s) + seq!['"']
}

/// Decimal digit character for `d` in `0..10`.
pub open spec fn digit_char(d: int) -> char {
    (('0' as int) + d) as char
}

/// The decimal representation of `n`, without sign or leading zeros.
pub open spec fn decimal(n: nat) -> Seq<char>
    decreases n,
{
    if n < 10 {
        seq![digit_char(n as int)]
    } else {
        decimal(n / 10).push(digit_char((n % 10) as int))
    }
}

/// The JSON string literal of `s`.
///
/// Trusted: `serde_json::to_string` on a `&str`. Its source escapes `"`, `\` and the
/// control characters below U+0020 (short forms for backspace, tab, line feed, form
/// feed and carriage return, `\u00XX` with lower-case hex otherwise), copies every other
/// character, and surrounds the result with quotes; writing into a `Vec` cannot fail,
/// so the error arm is never taken.
#[verifier::external_body]
pub(crate) fn json_string(s: &str) -> (r: String)
    ensures
        r@ == json_quote(s@),
{
    match serde_json::to_string(s) {
        Ok(t) => t,
        Err(_) => String::new(),
    }
}

/// The JSON number text of `n`.
///
/// Trusted: `serde_json::to_string` on a `usize`, which writes the plain decimal digits
/// (through `itoa`) and cannot fail.
#[verifier::external_body]
pub(crate) fn json_usize(n: usize) -> (r: String)
    ensures
        r@ == decimal(n as nat),
{
    match serde_json::to_string(&n) {
        Ok(t) => t,
        Err(_) => String::new(),
    }
}

/// Name for the string that `serde_json` decodes from the literal `lit`, if it accepts it.
pub uninterp spec fn json_string_value(lit: Seq<char>) -> Option<Seq<char>>;

/// Decodes one JSON string literal.
///
/// Trusted: `serde_json::from_str::<String>`. Its result is a function of the text
/// alone; decoding the literal that `serde_json` writes for a string gives that
/// string back.
#[verifier::external_body]
pub(crate) fn json_parse_string(lit: &str) -> (r: Option<String>)
    ensures
        match r {
            Some(t) => json_string_value(lit@) == Some(t@),
            None => json_string_value(lit@) is None,
        },
        forall|x: Seq<char>| #[trigger] json_quote(x) == lit@ ==> r is Some && r.unwrap()@ == x,
{
    serde_json::from_str::<String>(lit).ok()
}

/// Name for the number that `serde_json` decodes from the text `lit` as a `usize`.
pub uninterp spec fn json_usize_value(lit: Seq<char>) -> Option<usize>;

/// Decodes one JSON number as a `usize`.
///
/// Trusted: `serde_json::from_str::<usize>`. Its result is a function of the text
/// alone; the decimal digits of a `usize` decode to that `usize`.
#[verifier::external_body]
pub(crate) fn json_parse_usize(lit: &str) -> (r: Option<usize>)
    ensures
        r == json_usize_value(lit@),
        forall|n: usize| #[trigger] decimal(n as nat) == lit@ ==> r == Some(n),
{
    serde_json::from_str::<usize>(lit).ok()
}

} // verus!
