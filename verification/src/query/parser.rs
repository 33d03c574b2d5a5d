use vstd::prelude::*;
use crate::error::{CashewError, ErrorView};
use crate::query::expression::{CashewExpression, ExpressionView};
use crate::text::{
    char_is_alphanumeric, char_is_whitespace, i64_to_string, int_decimal, is_ascii_digit,
    parse_i64, parse_i64_spec, push_char, str_chars, str_eq, str_to_lowercase,
    unicode_alphanumeric, unicode_lowercase, unicode_white_space,
};

verus! {

/// A lexical token of the query language.
#[derive(Debug, PartialEq)]
pub enum Token {
    Word(String),
    StringLit(String),
    Number(i64),
    Equals,
    Pipe,
}

/// Model of a token.
pub enum Tok {
    Word(Seq<char>),
    Str(Seq<char>),
    Num(i64),
    Eq,
    Pipe,
}

impl View for Token {
    type V = Tok;

    open spec fn view(&self) -> Tok {
        match self {
            Token::Word(w) => Tok::Word(w@),
            Token::StringLit(s) => Tok::Str(s@),
            Token::Number(n) => Tok::Num(*n),
            Token::Equals => Tok::Eq,
            Token::Pipe => Tok::Pipe,
        }
    }
}

pub open spec fn toks(v: Seq<Token>) -> Seq<Tok> {
    v.map_values(|t: Token| t@)
}

// ---------------------------------------------------------------------------
// The lexical grammar.
// ---------------------------------------------------------------------------

pub open spec fn is_quote(c: char) -> bool {
    c == '"' || c == '\''
}

pub open spec fn word_char(c: char) -> bool {
    unicode_alphanumeric(c) || c == '_' || c == '-'
}

/// The body of a literal opened by quote `q` (backslash escapes the next character)
/// and the text after its closing quote; an unterminated literal runs to the end.
pub open spec fn quoted(s: Seq<char>, q: char) -> (Seq<char>, Seq<char>)
    decreases s.len(),
{
    if s.len() == 0 {
        (Seq::empty(), Seq::empty())
    } else if s[0] == q {
        (Seq::empty(), s.drop_first())
    } else if s[0] == '\\' && s.len() > 1 {
        let r = quoted(s.skip(2), q);
        (seq![s[1]] + r.0, r.1)
    } else {
        let r = quoted(s.drop_first(), q);
        (seq![s[0]] + r.0, r.1)
    }
}

pub proof fn lemma_quoted_len(s: Seq<char>, q: char)
    ensures
        quoted(s, q).1.len() <= s.len(),
    decreases s.len(),
{
    if s.len() > 0 && s[0] != q {
        if s[0] == '\\' && s.len() > 1 {
            lemma_quoted_len(s.skip(2), q);
        } else {
            lemma_quoted_len(s.drop_first(), q);
        }
    }
}

/// Length of the leading run of ASCII digits.
pub open spec fn digit_run(s: Seq<char>) -> nat
    decreases s.len(),
{
    if s.len() > 0 && is_ascii_digit(s[0]) {
        1 + digit_run(s.drop_first())
    } else {
        0
    }
}

/// Length of the leading run of word characters.
pub open spec fn word_run(s: Seq<char>) -> nat
    decreases s.len(),
{
    if s.len() > 0 && word_char(s[0]) {
        1 + word_run(s.drop_first())
    } else {
        0
    }
}

pub proof fn lemma_runs(s: Seq<char>)
    ensures
        digit_run(s) <= s.len(),
        word_run(s) <= s.len(),
    decreases s.len(),
{
    if s.len() > 0 {
        lemma_runs(s.drop_first());
    }
}

/// Length of a number-like run: an optional `-` and the digits after it.
pub open spec fn number_len(s: Seq<char>) -> nat {
    if s.len() > 0 && s[0] == '-' {
        1 + digit_run(s.drop_first())
    } else {
        digit_run(s)
    }
}

/// A number-like run is a number when it parses as an `i64`, a word otherwise.
pub open spec fn number_token(t: Seq<char>) -> Tok {
    match parse_i64_spec(t) {
        Some(v) => Tok::Num(v),
        None => Tok::Word(unicode_lowercase(t)),
    }
}

/// The tokens of `s`.
pub open spec fn tokens_of(s: Seq<char>) -> Seq<Tok>
    decreases s.len(),
{
    if s.len() == 0 {
        Seq::empty()
    } else {
        let c = s[0];
        if unicode_white_space(c) {
            tokens_of(s.drop_first())
        } else if c == '|' {
            seq![Tok::Pipe] + tokens_of(s.drop_first())
        } else if c == '=' {
            seq![Tok::Eq] + tokens_of(s.drop_first())
        } else if is_quote(c) {
            let r = quoted(s.drop_first(), c);
            proof {
                lemma_quoted_len(s.drop_first(), c);
            }
            seq![Tok::Str(r.0)] + tokens_of(r.1)
        } else if c == '-' || is_ascii_digit(c) {
            let n = number_len(s);
            proof {
                lemma_runs(s.drop_first());
                lemma_runs(s);
            }
            if 0 < n <= s.len() {
                seq![number_token(s.take(n as int))] + tokens_of(s.skip(n as int))
            } else {
                Seq::empty()
            }
        } else if unicode_alphanumeric(c) || c == '_' {
            let n = word_run(s);
            proof {
                lemma_runs(s);
            }
            if 0 < n <= s.len() {
                seq![Tok::Word(unicode_lowercase(s.take(n as int)))] + tokens_of(s.skip(n as int))
            } else {
                Seq::empty()
            }
        } else {
            tokens_of(s.drop_first())
        }
    }
}

proof fn lemma_word_run_over(w: Seq<char>, rest: Seq<char>)
    requires
        forall|i: int| 0 <= i < w.len() ==> (unicode_alphanumeric(#[trigger] w[i]) || w[i] == '_' || w[i] == '-'),
        rest.len() == 0 || !(unicode_alphanumeric(rest[0]) || rest[0] == '_' || rest[0] == '-'),
    ensures
        word_run(w + rest) == w.len(),
    decreases w.len(),
{
    if w.len() == 0 {
        assert(w + rest =~= rest);
    } else {
        assert((w + rest)[0] == w[0]);
        assert((w + rest).drop_first() =~= w.drop_first() + rest);
        assert forall|i: int| 0 <= i < w.drop_first().len() implies (unicode_alphanumeric(#[trigger] w.drop_first()[i])
            || w.drop_first()[i] == '_' || w.drop_first()[i] == '-') by {
            assert(w.drop_first()[i] == w[i + 1]);
        }
        lemma_word_run_over(w.drop_first(), rest);
    }
}

/// A bare word runs over alphanumerics, `_` and `-`: a text `w` that starts with
/// a letter-like character (alphanumeric or `_`, neither a digit nor whitespace
/// nor punctuation of the language) and holds only alphanumerics, `_` and `-`,
/// followed by a character that is none of these, is tokenized as the single
/// word `w` (lowercased), then the tokens of what follows.
pub proof fn lemma_word_token(w: Seq<char>, rest: Seq<char>)
    requires
        w.len() > 0,
        unicode_alphanumeric(w[0]) || w[0] == '_',
        !is_ascii_digit(w[0]),
        !unicode_white_space(w[0]),
        !is_quote(w[0]),
        w[0] != '|',
        w[0] != '=',
        w[0] != '-',
        forall|i: int| 0 <= i < w.len() ==> (unicode_alphanumeric(#[trigger] w[i]) || w[i] == '_' || w[i] == '-'),
        rest.len() == 0 || !(unicode_alphanumeric(rest[0]) || rest[0] == '_' || rest[0] == '-'),
    ensures
        tokens_of(w + rest) == seq![Tok::Word(unicode_lowercase(w))] + tokens_of(rest),
{
    let s = w + rest;
    lemma_word_run_over(w, rest);
    assert(s[0] == w[0]);
    assert(s.take(w.len() as int) =~= w);
    assert(s.skip(w.len() as int) =~= rest);
}

/// Whitespace between tokens is dropped.
pub proof fn lemma_space_skipped(c: char, s: Seq<char>)
    requires
        unicode_white_space(c),
    ensures
        tokens_of(seq![c] + s) == tokens_of(s),
{
    assert((seq![c] + s).drop_first() =~= s);
}

/// `|` and `=` are tokens of their own, whatever follows them.
pub proof fn lemma_pipe_and_equals(s: Seq<char>)
    ensures
        tokens_of(seq!['|'] + s) == seq![Tok::Pipe] + tokens_of(s),
        tokens_of(seq!['='] + s) == seq![Tok::Eq] + tokens_of(s),
{
    assert((seq!['|'] + s).drop_first() =~= s);
    assert((seq!['='] + s).drop_first() =~= s);
}

proof fn lemma_quoted_plain(body: Seq<char>, q: char, rest: Seq<char>)
    requires
        forall|i: int| 0 <= i < body.len() ==> #[trigger] body[i] != q && body[i] != '\\',
    ensures
        quoted(body + seq![q] + rest, q) == (body, rest),
    decreases body.len(),
{
    let s = body + seq![q] + rest;
    if body.len() == 0 {
        assert(s =~= seq![q] + rest);
        assert(s.drop_first() =~= rest);
    } else {
        assert(s[0] == body[0]);
        assert(s.drop_first() =~= body.drop_first() + seq![q] + rest);
        assert forall|i: int| 0 <= i < body.drop_first().len() implies #[trigger] body.drop_first()[i] != q
            && body.drop_first()[i] != '\\' by {
            assert(body.drop_first()[i] == body[i + 1]);
        }
        lemma_quoted_plain(body.drop_first(), q, rest);
        assert(seq![body[0]] + body.drop_first() =~= body);
    }
}

/// A quoted literal without quotes of its kind or backslashes inside is one
/// string token holding exactly the text between the quotes.
pub proof fn lemma_string_token(q: char, body: Seq<char>, rest: Seq<char>)
    requires
        q == '"' || q == '\'',
        forall|i: int| 0 <= i < body.len() ==> #[trigger] body[i] != q && body[i] != '\\',
    ensures
        tokens_of(seq![q] + body + seq![q] + rest) == seq![Tok::Str(body)] + tokens_of(rest),
{
    let s = seq![q] + body + seq![q] + rest;
    assert(s.drop_first() =~= body + seq![q] + rest);
    lemma_quoted_plain(body, q, rest);
}

proof fn lemma_digit_run_over(d: Seq<char>, rest: Seq<char>)
    requires
        forall|i: int| 0 <= i < d.len() ==> is_ascii_digit(#[trigger] d[i]),
        rest.len() == 0 || !is_ascii_digit(rest[0]),
    ensures
        digit_run(d + rest) == d.len(),
    decreases d.len(),
{
    if d.len() == 0 {
        assert(d + rest =~= rest);
    } else {
        assert((d + rest)[0] == d[0]);
        assert((d + rest).drop_first() =~= d.drop_first() + rest);
        assert forall|i: int| 0 <= i < d.drop_first().len() implies is_ascii_digit(#[trigger] d.drop_first()[i]) by {
            assert(d.drop_first()[i] == d[i + 1]);
        }
        lemma_digit_run_over(d.drop_first(), rest);
    }
}

/// A run of digits that reads as an `i64` is one number token with that value.
pub proof fn lemma_number_token(d: Seq<char>, rest: Seq<char>, v: i64)
    requires
        d.len() > 0,
        forall|i: int| 0 <= i < d.len() ==> is_ascii_digit(#[trigger] d[i]),
        rest.len() == 0 || !is_ascii_digit(rest[0]),
        parse_i64_spec(d) == Some(v),
    ensures
        tokens_of(d + rest) == seq![Tok::Num(v)] + tokens_of(rest),
{
    let s = d + rest;
    lemma_digit_run_over(d, rest);
    assert(s[0] == d[0]);
    assert(is_ascii_digit(d[0]));
    assert(s.take(d.len() as int) =~= d);
    assert(s.skip(d.len() as int) =~= rest);
}

/// `s` without its leading whitespace.
pub open spec fn trim_start(s: Seq<char>) -> Seq<char>
    decreases s.len(),
{
    if s.len() > 0 && unicode_white_space(s[0]) {
        trim_start(s.drop_first())
    } else {
        s
    }
}

/// `s` without its trailing whitespace.
pub open spec fn trim_end(s: Seq<char>) -> Seq<char>
    decreases s.len(),
{
    if s.len() > 0 && unicode_white_space(s.last()) {
        trim_end(s.drop_last())
    } else {
        s
    }
}

/// `s` without leading and trailing whitespace (what `str::trim` gives).
pub open spec fn trim(s: Seq<char>) -> Seq<char> {
    trim_end(trim_start(s))
}

/// The pipe-separated segments of `ts` after the open segment `cur`, empty segments dropped.
pub open spec fn split_from(ts: Seq<Tok>, cur: Seq<Tok>) -> Seq<Seq<Tok>>
    decreases ts.len(),
{
    if ts.len() == 0 {
        if cur.len() > 0 {
            seq![cur]
        } else {
            Seq::empty()
        }
    } else if ts[0] is Pipe {
        (if cur.len() > 0 {
            seq![cur]
        } else {
            Seq::empty()
        }) + split_from(ts.drop_first(), Seq::empty())
    } else {
        split_from(ts.drop_first(), cur.push(ts[0]))
    }
}

/// The non-empty pipe-separated segments of `ts`.
pub open spec fn split_pipes(ts: Seq<Tok>) -> Seq<Seq<Tok>> {
    split_from(ts, Seq::empty())
}

// ---------------------------------------------------------------------------
// The expression grammar.
// ---------------------------------------------------------------------------

/// The string a token stands for as an argument.
pub open spec fn extract_spec(t: Tok) -> Result<Seq<char>, ErrorView> {
    match t {
        Tok::Str(s) => Ok(s),
        Tok::Word(w) => Ok(w),
        Tok::Num(n) => Ok(int_decimal(n as int)),
        _ => Err(ErrorView::ParseError("expected string or word"@)),
    }
}

/// `limit N` and `after X` options in `ts`, later ones overriding earlier ones.
pub open spec fn pagination_from(ts: Seq<Tok>, limit: Option<usize>, after: Option<Seq<char>>) -> Result<
    (Option<usize>, Option<Seq<char>>),
    ErrorView,
>
    decreases ts.len(),
{
    if ts.len() == 0 {
        Ok((limit, after))
    } else if ts[0] == Tok::Word("limit"@) {
        if ts.len() > 1 {
            pagination_from(
                ts.skip(2),
                match ts[1] {
                    Tok::Num(n) => Some(n as usize),
                    _ => limit,
                },
                after,
            )
        } else {
            Ok((limit, after))
        }
    } else if ts[0] == Tok::Word("after"@) {
        if ts.len() > 1 {
            match extract_spec(ts[1]) {
                Ok(s) => pagination_from(ts.skip(2), limit, Some(s)),
                Err(e) => Err(e),
            }
        } else {
            Ok((limit, after))
        }
    } else {
        pagination_from(ts.drop_first(), limit, after)
    }
}

/// `key = value` at the front of `ts`.
pub open spec fn key_value_spec(ts: Seq<Tok>) -> Result<(Seq<char>, Seq<char>), ErrorView> {
    if ts.len() < 3 {
        Err(ErrorView::ParseError("expected: key = value"@))
    } else {
        match extract_spec(ts[0]) {
            Err(e) => Err(e),
            Ok(k) => if ts[1] != Tok::Eq {
                Err(ErrorView::ParseError("expected '=' after key"@))
            } else {
                match extract_spec(ts[2]) {
                    Err(e) => Err(e),
                    Ok(v) => Ok((k, v)),
                }
            },
        }
    }
}

pub open spec fn sorted_option(ts: Seq<Tok>) -> bool {
    ts.len() > 1 && ts[1] == Tok::Word("sorted"@)
}

/// The expression a command's tokens stand for.
pub open spec fn segment_spec(ts: Seq<Tok>) -> Result<ExpressionView, ErrorView> {
    if ts.len() == 0 {
        Err(ErrorView::EmptyExpression)
    } else {
        match ts[0] {
            Tok::Word(w) => {
                if w == "get"@ {
                    if ts.len() < 2 {
                        Err(ErrorView::ParseError("get requires a key argument"@))
                    } else {
                        match ts[1] {
                            Tok::Str(s) => Ok(ExpressionView::Get(s)),
                            Tok::Num(n) => Ok(ExpressionView::GetAt(n as usize)),
                            Tok::Word(x) => Ok(ExpressionView::Get(x)),
                            _ => Err(ErrorView::ParseError("invalid get argument"@)),
                        }
                    }
                } else if w == "keys"@ {
                    if sorted_option(ts) {
                        match pagination_from(ts.skip(2), None, None) {
                            Ok(p) => Ok(ExpressionView::SortedKeys { limit: p.0, after: p.1 }),
                            Err(e) => Err(e),
                        }
                    } else {
                        Ok(ExpressionView::Keys)
                    }
                } else if w == "values"@ {
                    if sorted_option(ts) {
                        match pagination_from(ts.skip(2), None, None) {
                            Ok(p) => Ok(ExpressionView::SortedValues { limit: p.0, after: p.1 }),
                            Err(e) => Err(e),
                        }
                    } else {
                        Ok(ExpressionView::Values)
                    }
                } else if w == "count"@ || w == "size"@ {
                    Ok(ExpressionView::Count)
                } else if w == "contains"@ || w == "has"@ {
                    if ts.len() < 2 {
                        Err(ErrorView::ParseError("contains requires a key"@))
                    } else {
                        match extract_spec(ts[1]) {
                            Ok(s) => Ok(ExpressionView::Contains(s)),
                            Err(e) => Err(e),
                        }
                    }
                } else if w == "first"@ {
                    Ok(ExpressionView::First)
                } else if w == "last"@ {
                    Ok(ExpressionView::Last)
                } else if w == "insert"@ || w == "add"@ {
                    match key_value_spec(ts.drop_first()) {
                        Ok(p) => Ok(ExpressionView::Insert { key: p.0, value: p.1 }),
                        Err(e) => Err(e),
                    }
                } else if w == "update"@ {
                    match key_value_spec(ts.drop_first()) {
                        Ok(p) => Ok(ExpressionView::Update { key: p.0, value: p.1 }),
                        Err(e) => Err(e),
                    }
                } else if w == "set"@ || w == "put"@ {
                    match key_value_spec(ts.drop_first()) {
                        Ok(p) => Ok(ExpressionView::Put { key: p.0, value: p.1 }),
                        Err(e) => Err(e),
                    }
                } else if w == "delete"@ || w == "remove"@ {
                    if ts.len() < 2 {
                        Err(ErrorView::ParseError("delete requires a key"@))
                    } else {
                        match extract_spec(ts[1]) {
                            Ok(s) => Ok(ExpressionView::Delete(s)),
                            Err(e) => Err(e),
                        }
                    }
                } else if w == "append"@ {
                    if ts.len() < 2 {
                        Err(ErrorView::ParseError("append requires a value"@))
                    } else {
                        match extract_spec(ts[1]) {
                            Ok(s) => Ok(ExpressionView::Append(s)),
                            Err(e) => Err(e),
                        }
                    }
                } else {
                    Err(ErrorView::UnsupportedOperation(w))
                }
            },
            _ => Err(ErrorView::ParseError("expected command word"@)),
        }
    }
}

/// The expressions of all segments, stopping at the first failing one.
pub open spec fn segments_spec(segs: Seq<Seq<Tok>>) -> Result<Seq<ExpressionView>, ErrorView>
    decreases segs.len(),
{
    if segs.len() == 0 {
        Ok(Seq::empty())
    } else {
        match segments_spec(segs.drop_last()) {
            Err(e) => Err(e),
            Ok(es) => if segs.last().len() == 0 {
                Ok(es)
            } else {
                match segment_spec(segs.last()) {
                    Ok(x) => Ok(es.push(x)),
                    Err(e) => Err(e),
                }
            },
        }
    }
}

/// What a query string parses to.
pub open spec fn parse_spec(input: Seq<char>) -> Result<Seq<ExpressionView>, ErrorView> {
    let t = trim(input);
    if t.len() == 0 {
        Err(ErrorView::EmptyExpression)
    } else {
        match segments_spec(split_pipes(tokens_of(t))) {
            Err(e) => Err(e),
            Ok(es) => if es.len() == 0 {
                Err(ErrorView::EmptyExpression)
            } else {
                Ok(es)
            },
        }
    }
}

// ---------------------------------------------------------------------------
// Lexer.
// ---------------------------------------------------------------------------

pub proof fn lemma_skip_facts(s: Seq<char>, i: int)
    requires
        0 <= i < s.len(),
    ensures
        s.skip(i)[0] == s[i],
        s.skip(i).drop_first() == s.skip(i + 1),
        s.skip(i).len() == s.len() - i,
{
    assert(s.skip(i).drop_first() =~= s.skip(i + 1));
}

/// `chars[..len]` with its surrounding whitespace removed.
fn trim_chars(v: &Vec<char>) -> (r: Vec<char>)
    ensures
        r@ == trim(v@),
{
    let mut a: usize = 0;
    proof {
        assert(v@.skip(0) =~= v@);
    }
    while a < v.len() && char_is_whitespace(v[a])
        invariant
            a <= v@.len(),
            trim_start(v@.skip(a as int)) == trim_start(v@),
        decreases v.len() - a,
    {
        proof {
            lemma_skip_facts(v@, a as int);
        }
        a += 1;
    }
    proof {
        if a < v@.len() {
            lemma_skip_facts(v@, a as int);
        }
    }
    let ghost t = v@.skip(a as int);
    let mut b: usize = v.len();
    while b > a && char_is_whitespace(v[b - 1])
        invariant
            a <= b <= v@.len(),
            t == v@.skip(a as int),
            trim_end(v@.subrange(a as int, b as int)) == trim_end(t),
        decreases b - a,
    {
        proof {
            assert(v@.subrange(a as int, b as int).drop_last() =~= v@.subrange(a as int, b - 1));
            assert(v@.subrange(a as int, b as int).last() == v@[b - 1]);
        }
        b -= 1;
    }
    proof {
        assert(v@.subrange(a as int, v@.len() as int) =~= t);
        if b > a {
            assert(v@.subrange(a as int, b as int).last() == v@[b - 1]);
        }
    }
    let mut r: Vec<char> = Vec::new();
    let mut j = a;
    while j < b
        invariant
            a <= j <= b <= v@.len(),
            r@ == v@.subrange(a as int, j as int),
        decreases b - j,
    {
        r.push(v[j]);
        proof {
            assert(v@.subrange(a as int, j + 1) =~= v@.subrange(a as int, j as int).push(v@[j as int]));
        }
        j += 1;
    }
    r
}

/// Scans a quoted literal whose body starts at `i`.
fn scan_quoted(v: &Vec<char>, i: usize, q: char) -> (r: (String, usize))
    requires
        i <= v@.len(),
    ensures
        i <= r.1 <= v@.len(),
        (r.0@, v@.skip(r.1 as int)) == quoted(v@.skip(i as int), q),
{
    let mut s = String::new();
    let mut j = i;
    while j < v.len() && v[j] != q
        invariant
            i <= j <= v@.len(),
            s@ + quoted(v@.skip(j as int), q).0 == quoted(v@.skip(i as int), q).0,
            quoted(v@.skip(j as int), q).1 == quoted(v@.skip(i as int), q).1,
        decreases v.len() - j,
    {
        proof {
            lemma_skip_facts(v@, j as int);
        }
        if v[j] == '\\' && j + 1 < v.len() {
            proof {
                assert(v@.skip(j as int).skip(2) =~= v@.skip(j + 2));
                assert(v@.skip(j as int)[1] == v@[j + 1]);
            }
            push_char(&mut s, v[j + 1]);
            j += 2;
        } else {
            push_char(&mut s, v[j]);
            j += 1;
        }
    }
    proof {
        if j < v@.len() {
            lemma_skip_facts(v@, j as int);
        } else {
            assert(v@.skip(j as int).len() == 0);
        }
        assert(s@ + Seq::<char>::empty() =~= s@);
    }
    if j < v.len() {
        j += 1;
    }
    (s, j)
}

/// End of the run of ASCII digits starting at `i`.
fn scan_digits(v: &Vec<char>, i: usize) -> (e: usize)
    requires
        i <= v@.len(),
    ensures
        i <= e <= v@.len(),
        e - i == digit_run(v@.skip(i as int)),
{
    let mut j = i;
    while j < v.len() && '0' <= v[j] && v[j] <= '9'
        invariant
            i <= j <= v@.len(),
            (j - i) + digit_run(v@.skip(j as int)) == digit_run(v@.skip(i as int)),
        decreases v.len() - j,
    {
        proof {
            lemma_skip_facts(v@, j as int);
        }
        j += 1;
    }
    proof {
        if j < v@.len() {
            lemma_skip_facts(v@, j as int);
        }
    }
    j
}

/// End of the run of word characters starting at `i`.
fn scan_word(v: &Vec<char>, i: usize) -> (e: usize)
    requires
        i <= v@.len(),
    ensures
        i <= e <= v@.len(),
        e - i == word_run(v@.skip(i as int)),
{
    let mut j = i;
    while j < v.len() && (char_is_alphanumeric(v[j]) || v[j] == '_' || v[j] == '-')
        invariant
            i <= j <= v@.len(),
            (j - i) + word_run(v@.skip(j as int)) == word_run(v@.skip(i as int)),
        decreases v.len() - j,
    {
        proof {
            lemma_skip_facts(v@, j as int);
        }
        j += 1;
    }
    proof {
        if j < v@.len() {
            lemma_skip_facts(v@, j as int);
        }
    }
    j
}

/// Lexes what starts at `i`: at most one token, and where lexing goes on.
fn lex_one(v: &Vec<char>, i: usize) -> (r: (Option<Token>, usize))
    requires
        i < v@.len(),
    ensures
        i < r.1 <= v@.len(),
        tokens_of(v@.skip(i as int)) == match r.0 {
            Some(t) => seq![t@],
            None => Seq::empty(),
        } + tokens_of(v@.skip(r.1 as int)),
{
    let len = v.len();
    let ch = v[i];
    let ghost s = v@.skip(i as int);
    proof {
        lemma_skip_facts(v@, i as int);
    }
    if char_is_whitespace(ch) {
        assert(Seq::<Tok>::empty() + tokens_of(v@.skip(i + 1)) =~= tokens_of(v@.skip(i + 1)));
        return (None, i + 1);
    }
    if ch == '|' {
        return (Some(Token::Pipe), i + 1);
    }
    if ch == '=' {
        return (Some(Token::Equals), i + 1);
    }
    if ch == '"' || ch == '\'' {
        let (lit, next) = scan_quoted(v, i + 1, ch);
        return (Some(Token::StringLit(lit)), next);
    }
    if ch == '-' || ('0' <= ch && ch <= '9') {
        let start = if ch == '-' { i + 1 } else { i };
        let end = scan_digits(v, start);
        proof {
            let n = number_len(s);
            assert(n == end - i);
            assert(s.take(n as int) =~= v@.subrange(i as int, end as int));
            assert(s.skip(n as int) =~= v@.skip(end as int));
        }
        let num_str = crate::text::chars_to_string(v, i, end);
        let tok = match parse_i64(num_str.as_str()) {
            Some(n) => Token::Number(n),
            None => Token::Word(str_to_lowercase(num_str.as_str())),
        };
        return (Some(tok), end);
    }
    if char_is_alphanumeric(ch) || ch == '_' {
        let end = scan_word(v, i);
        proof {
            let n = word_run(s);
            assert(n == end - i);
            assert(s.take(n as int) =~= v@.subrange(i as int, end as int));
            assert(s.skip(n as int) =~= v@.skip(end as int));
        }
        let word = crate::text::chars_to_string(v, i, end);
        return (Some(Token::Word(str_to_lowercase(word.as_str()))), end);
    }
    assert(Seq::<Tok>::empty() + tokens_of(v@.skip(i + 1)) =~= tokens_of(v@.skip(i + 1)));
    (None, i + 1)
}

/// The tokens of `v`.
fn tokenize(v: &Vec<char>) -> (r: Result<Vec<Token>, CashewError>)
    ensures
        r matches Ok(ts) && toks(ts@) == tokens_of(v@),
{
    let mut tokens: Vec<Token> = Vec::new();
    let mut i: usize = 0;
    proof {
        assert(v@.skip(0) =~= v@);
        assert(toks(tokens@) =~= Seq::<Tok>::empty());
    }
    while i < v.len()
        invariant
            i <= v@.len(),
            toks(tokens@) + tokens_of(v@.skip(i as int)) == tokens_of(v@),
        decreases v.len() - i,
    {
        let (tok, next) = lex_one(v, i);
        let ghost before = toks(tokens@);
        match tok {
            Some(t) => {
                let ghost tv = t@;
                tokens.push(t);
                proof {
                    assert(toks(tokens@) =~= before.push(tv));
                    assert(before.push(tv) + tokens_of(v@.skip(next as int)) =~= before + (seq![tv] + tokens_of(v@.skip(next as int))));
                }
            },
            None => {
                proof {
                    assert(Seq::<Tok>::empty() + tokens_of(v@.skip(next as int)) =~= tokens_of(v@.skip(next as int)));
                }
            },
        }
        i = next;
    }
    proof {
        assert(v@.skip(i as int).len() == 0);
        assert(toks(tokens@) + Seq::<Tok>::empty() =~= toks(tokens@));
    }
    Ok(tokens)
}

// ---------------------------------------------------------------------------
// Parser.
// ---------------------------------------------------------------------------

fn clone_token(t: &Token) -> (r: Token)
    ensures
        r@ == t@,
{
    match t {
        Token::Word(w) => Token::Word(w.clone()),
        Token::StringLit(x) => Token::StringLit(x.clone()),
        Token::Number(n) => Token::Number(*n),
        Token::Equals => Token::Equals,
        Token::Pipe => Token::Pipe,
    }
}

pub open spec fn segs_view(v: Seq<Vec<Token>>) -> Seq<Seq<Tok>> {
    v.map_values(|seg: Vec<Token>| toks(seg@))
}

/// Splits the tokens at pipes, dropping empty segments.
fn split_by_pipe(tokens: &Vec<Token>) -> (r: Vec<Vec<Token>>)
    ensures
        segs_view(r@) == split_pipes(toks(tokens@)),
{
    let ghost all = toks(tokens@);
    let mut segments: Vec<Vec<Token>> = Vec::new();
    let mut current: Vec<Token> = Vec::new();
    let mut i: usize = 0;
    proof {
        assert(all.skip(0) =~= all);
        assert(segs_view(segments@) =~= Seq::<Seq<Tok>>::empty());
        assert(toks(current@) =~= Seq::<Tok>::empty());
    }
    while i < tokens.len()
        invariant
            i <= tokens@.len(),
            all == toks(tokens@),
            all.len() == tokens@.len(),
            segs_view(segments@) + split_from(all.skip(i as int), toks(current@)) == split_pipes(all),
        decreases tokens.len() - i,
    {
        let ghost rest = all.skip(i as int);
        proof {
            assert(rest[0] == tokens@[i as int]@);
            assert(rest.drop_first() =~= all.skip(i + 1));
        }
        let ghost before = segs_view(segments@);
        let ghost cur = toks(current@);
        match &tokens[i] {
            Token::Pipe => {
                if current.len() > 0 {
                    segments.push(current);
                    current = Vec::new();
                    proof {
                        assert(segs_view(segments@) =~= before.push(cur));
                        assert(before + (seq![cur] + split_from(all.skip(i + 1), Seq::empty())) =~= before.push(cur)
                            + split_from(all.skip(i + 1), Seq::empty()));
                        assert(toks(current@) =~= Seq::<Tok>::empty());
                    }
                } else {
                    proof {
                        assert(cur.len() == 0);
                        assert(Seq::<Seq<Tok>>::empty() + split_from(all.skip(i + 1), Seq::empty()) =~= split_from(all.skip(i + 1), Seq::empty()));
                        assert(cur =~= Seq::<Tok>::empty());
                    }
                }
            },
            t => {
                current.push(clone_token(t));
                proof {
                    assert(toks(current@) =~= cur.push(rest[0]));
                }
            },
        }
        i += 1;
    }
    let ghost before = segs_view(segments@);
    let ghost cur = toks(current@);
    proof {
        assert(all.skip(i as int).len() == 0);
    }
    if current.len() > 0 {
        segments.push(current);
        proof {
            assert(segs_view(segments@) =~= before.push(cur));
            assert(before + seq![cur] =~= before.push(cur));
        }
    } else {
        proof {
            assert(before + Seq::<Seq<Tok>>::empty() =~= before);
        }
    }
    segments
}

/// The string a token stands for as an argument.
fn extract_string(t: &Token) -> (r: Result<String, CashewError>)
    ensures
        match r {
            Ok(x) => extract_spec(t@) == Ok::<Seq<char>, ErrorView>(x@),
            Err(e) => extract_spec(t@) == Err::<Seq<char>, ErrorView>(e@),
        },
{
    match t {
        Token::StringLit(s) => Ok(s.clone()),
        Token::Word(w) => Ok(w.clone()),
        Token::Number(n) => Ok(i64_to_string(*n)),
        _ => Err(CashewError::ParseError(String::from_str("expected string or word"))),
    }
}

pub open spec fn pagination_view(p: (Option<usize>, Option<String>)) -> (Option<usize>, Option<Seq<char>>) {
    (p.0, match p.1 {
        Some(s) => Some(s@),
        None => None,
    })
}

/// Reads `limit N` and `after X` options from `tokens[from..]`.
fn parse_pagination(tokens: &Vec<Token>, from: usize) -> (r: Result<(Option<usize>, Option<String>), CashewError>)
    requires
        from <= tokens@.len(),
    ensures
        match r {
            Ok(p) => pagination_from(toks(tokens@).skip(from as int), None, None) == Ok::<
                (Option<usize>, Option<Seq<char>>),
                ErrorView,
            >(pagination_view(p)),
            Err(e) => pagination_from(toks(tokens@).skip(from as int), None, None) == Err::<
                (Option<usize>, Option<Seq<char>>),
                ErrorView,
            >(e@),
        },
{
    let ghost all = toks(tokens@);
    let mut limit: Option<usize> = None;
    let mut after: Option<String> = None;
    let mut i = from;
    while i < tokens.len()
        invariant
            from <= i <= tokens@.len(),
            all == toks(tokens@),
            all.len() == tokens@.len(),
            pagination_from(all.skip(i as int), limit, pagination_view((limit, after)).1)
                == pagination_from(all.skip(from as int), None, None),
        decreases tokens.len() - i,
    {
        let ghost rest = all.skip(i as int);
        proof {
            assert(rest[0] == tokens@[i as int]@);
        }
        let is_limit = match &tokens[i] {
            Token::Word(w) => str_eq(w.as_str(), "limit"),
            _ => false,
        };
        let is_after = match &tokens[i] {
            Token::Word(w) => str_eq(w.as_str(), "after"),
            _ => false,
        };
        if is_limit || is_after {
            if i + 1 >= tokens.len() {
                return Ok((limit, after));
            }
            proof {
                assert(rest[1] == tokens@[i + 1]@);
                assert(rest.skip(2) =~= all.skip(i + 2));
            }
            if is_limit {
                match &tokens[i + 1] {
                    Token::Number(n) => {
                        limit = Some(*n as usize);
                    },
                    _ => {},
                }
            } else {
                let s = match extract_string(&tokens[i + 1]) {
                    Ok(s) => s,
                    Err(e) => return Err(e),
                };
                after = Some(s);
            }
            i += 2;
        } else {
            proof {
                assert(rest.drop_first() =~= all.skip(i + 1));
            }
            i += 1;
        }
    }
    proof {
        assert(all.skip(i as int).len() == 0);
    }
    Ok((limit, after))
}

/// Reads `key = value` from `tokens[from..]`.
fn parse_key_value(tokens: &Vec<Token>, from: usize) -> (r: Result<(String, String), CashewError>)
    requires
        from <= tokens@.len(),
    ensures
        match r {
            Ok(p) => key_value_spec(toks(tokens@).skip(from as int)) == Ok::<(Seq<char>, Seq<char>), ErrorView>((p.0@, p.1@)),
            Err(e) => key_value_spec(toks(tokens@).skip(from as int)) == Err::<(Seq<char>, Seq<char>), ErrorView>(e@),
        },
{
    let ghost ts = toks(tokens@).skip(from as int);
    if tokens.len() - from < 3 {
        return Err(CashewError::ParseError(String::from_str("expected: key = value")));
    }
    proof {
        assert(ts[0] == tokens@[from as int]@);
        assert(ts[1] == tokens@[from + 1]@);
        assert(ts[2] == tokens@[from + 2]@);
    }
    let key = match extract_string(&tokens[from]) {
        Ok(k) => k,
        Err(e) => return Err(e),
    };
    match &tokens[from + 1] {
        Token::Equals => {},
        _ => return Err(CashewError::ParseError(String::from_str("expected '=' after key"))),
    }
    let value = match extract_string(&tokens[from + 2]) {
        Ok(v) => v,
        Err(e) => return Err(e),
    };
    Ok((key, value))
}

fn requires_argument(message: &str) -> (e: CashewError)
    ensures
        e@ == ErrorView::ParseError(message@),
{
    CashewError::ParseError(String::from_str(message))
}

/// Parses one segment of tokens into an expression.
#[verifier::rlimit(40)]
fn parse_segment(tokens: &Vec<Token>) -> (r: Result<CashewExpression, CashewError>)
    ensures
        match r {
            Ok(x) => segment_spec(toks(tokens@)) == Ok::<ExpressionView, ErrorView>(x@),
            Err(e) => segment_spec(toks(tokens@)) == Err::<ExpressionView, ErrorView>(e@),
        },
{
    let ghost ts = toks(tokens@);
    if tokens.len() == 0 {
        return Err(CashewError::EmptyExpression);
    }
    proof {
        assert(ts[0] == tokens@[0]@);
        if tokens@.len() > 1 {
            assert(ts[1] == tokens@[1]@);
        }
        assert(ts.drop_first() =~= ts.skip(1));
    }
    let command = match &tokens[0] {
        Token::Word(w) => w,
        _ => return Err(CashewError::ParseError(String::from_str("expected command word"))),
    };
    let c = command.as_str();
    if str_eq(c, "get") {
        if tokens.len() < 2 {
            return Err(requires_argument("get requires a key argument"));
        }
        return match &tokens[1] {
            Token::StringLit(s) => Ok(CashewExpression::Get(s.clone())),
            Token::Number(n) => Ok(CashewExpression::GetAt(*n as usize)),
            Token::Word(w) => Ok(CashewExpression::Get(w.clone())),
            _ => Err(CashewError::ParseError(String::from_str("invalid get argument"))),
        };
    }
    let sorted = tokens.len() > 1 && match &tokens[1] {
        Token::Word(w) => str_eq(w.as_str(), "sorted"),
        _ => false,
    };
    if str_eq(c, "keys") {
        if sorted {
            return match parse_pagination(tokens, 2) {
                Ok((limit, after)) => Ok(CashewExpression::SortedKeys { limit, after }),
                Err(e) => Err(e),
            };
        }
        return Ok(CashewExpression::Keys);
    }
    if str_eq(c, "values") {
        if sorted {
            return match parse_pagination(tokens, 2) {
                Ok((limit, after)) => Ok(CashewExpression::SortedValues { limit, after }),
                Err(e) => Err(e),
            };
        }
        return Ok(CashewExpression::Values);
    }
    if str_eq(c, "count") || str_eq(c, "size") {
        return Ok(CashewExpression::Count);
    }
    if str_eq(c, "contains") || str_eq(c, "has") {
        if tokens.len() < 2 {
            return Err(requires_argument("contains requires a key"));
        }
        return match extract_string(&tokens[1]) {
            Ok(key) => Ok(CashewExpression::Contains(key)),
            Err(e) => Err(e),
        };
    }
    if str_eq(c, "first") {
        return Ok(CashewExpression::First);
    }
    if str_eq(c, "last") {
        return Ok(CashewExpression::Last);
    }
    if str_eq(c, "insert") || str_eq(c, "add") {
        return match parse_key_value(tokens, 1) {
            Ok((key, value)) => Ok(CashewExpression::Insert { key, value }),
            Err(e) => Err(e),
        };
    }
    if str_eq(c, "update") {
        return match parse_key_value(tokens, 1) {
            Ok((key, value)) => Ok(CashewExpression::Update { key, value }),
            Err(e) => Err(e),
        };
    }
    if str_eq(c, "set") || str_eq(c, "put") {
        return match parse_key_value(tokens, 1) {
            Ok((key, value)) => Ok(CashewExpression::Put { key, value }),
            Err(e) => Err(e),
        };
    }
    if str_eq(c, "delete") || str_eq(c, "remove") {
        if tokens.len() < 2 {
            return Err(requires_argument("delete requires a key"));
        }
        return match extract_string(&tokens[1]) {
            Ok(key) => Ok(CashewExpression::Delete(key)),
            Err(e) => Err(e),
        };
    }
    if str_eq(c, "append") {
        if tokens.len() < 2 {
            return Err(requires_argument("append requires a value"));
        }
        return match extract_string(&tokens[1]) {
            Ok(val) => Ok(CashewExpression::Append(val)),
            Err(e) => Err(e),
        };
    }
    Err(CashewError::UnsupportedOperation(command.clone()))
}

pub open spec fn exprs_view(v: Seq<CashewExpression>) -> Seq<ExpressionView> {
    v.map_values(|e: CashewExpression| e@)
}

/// Parses a cashew query string into a list of expressions.
pub struct CashewParser;

impl CashewParser {
    /// Parses pipe-separated commands such as `get "users" | keys sorted limit 10`.
    pub fn parse(input: &str) -> (r: Result<Vec<CashewExpression>, CashewError>)
        ensures
            match r {
                Ok(es) => parse_spec(input@) == Ok::<Seq<ExpressionView>, ErrorView>(exprs_view(es@)),
                Err(e) => parse_spec(input@) == Err::<Seq<ExpressionView>, ErrorView>(e@),
            },
    {
        let chars = str_chars(input);
        let trimmed = trim_chars(&chars);
        if trimmed.len() == 0 {
            return Err(CashewError::EmptyExpression);
        }
        let tokens = match tokenize(&trimmed) {
            Ok(t) => t,
            Err(e) => return Err(e),
        };
        let segments = split_by_pipe(&tokens);
        let ghost segs = segs_view(segments@);
        let mut expressions: Vec<CashewExpression> = Vec::new();
        let mut i: usize = 0;
        proof {
            assert(segs.take(0) =~= Seq::<Seq<Tok>>::empty());
            assert(exprs_view(expressions@) =~= Seq::<ExpressionView>::empty());
        }
        while i < segments.len()
            invariant
                i <= segments@.len(),
                segs == segs_view(segments@),
                segs == split_pipes(tokens_of(trim(input@))),
                trim(input@).len() > 0,
                segs.len() == segments@.len(),
                segments_spec(segs.take(i as int)) == Ok::<Seq<ExpressionView>, ErrorView>(exprs_view(expressions@)),
            decreases segments.len() - i,
        {
            proof {
                assert(segs.take(i + 1).drop_last() =~= segs.take(i as int));
                assert(segs.take(i + 1).last() == toks(segments@[i as int]@));
            }
            if segments[i].len() == 0 {
                i += 1;
                continue;
            }
            match parse_segment(&segments[i]) {
                Ok(x) => {
                    let ghost before = exprs_view(expressions@);
                    let ghost xv = x@;
                    expressions.push(x);
                    proof {
                        assert(exprs_view(expressions@) =~= before.push(xv));
                    }
                },
                Err(e) => {
                    proof {
                        lemma_segments_error(segs, i as int, e@);
                    }
                    return Err(e);
                },
            }
            i += 1;
        }
        proof {
            assert(segs.take(segments@.len() as int) =~= segs);
        }
        if expressions.len() == 0 {
            return Err(CashewError::EmptyExpression);
        }
        Ok(expressions)
    }
}

/// An error in segment `i` is the error of the whole list when the earlier ones parse.
proof fn lemma_segments_error(segs: Seq<Seq<Tok>>, i: int, e: ErrorView)
    requires
        0 <= i < segs.len(),
        segments_spec(segs.take(i)) is Ok,
        segs[i].len() > 0,
        segment_spec(segs[i]) == Err::<ExpressionView, ErrorView>(e),
    ensures
        segments_spec(segs) == Err::<Seq<ExpressionView>, ErrorView>(e),
    decreases segs.len() - i,
{
    let n = segs.len();
    assert(segs.take(i + 1).drop_last() =~= segs.take(i));
    assert(segs.take(i + 1).last() == segs[i]);
    assert(segments_spec(segs.take(i + 1)) == Err::<Seq<ExpressionView>, ErrorView>(e));
    lemma_segments_error_extend(segs, i + 1, e);
}

proof fn lemma_segments_error_extend(segs: Seq<Seq<Tok>>, j: int, e: ErrorView)
    requires
        0 <= j <= segs.len(),
        segments_spec(segs.take(j)) == Err::<Seq<ExpressionView>, ErrorView>(e),
    ensures
        segments_spec(segs) == Err::<Seq<ExpressionView>, ErrorView>(e),
    decreases segs.len() - j,
{
    if j == segs.len() {
        assert(segs.take(j) =~= segs);
    } else {
        assert(segs.take(j + 1).drop_last() =~= segs.take(j));
        lemma_segments_error_extend(segs, j + 1, e);
    }
}

} // verus!
