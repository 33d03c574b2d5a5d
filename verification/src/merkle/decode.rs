//! Reading back the deterministic JSON that nodes and dictionaries are written
//! in. The readers here take that compact layout (fields in the order written,
//! no insignificant whitespace) and are proved to read it back exactly; other
//! layouts go to the readers in `lenient`. String literals and numbers are
//! decoded by `serde_json`. Entries listed in the serialized form but decoded elsewhere
//! become child links through `links_from_entries`.
use vstd::prelude::*;
use crate::codec::{
    decimal, digit_char, hex_digit, json_escape, json_escape_char, json_parse_string, json_parse_usize,
    json_quote,
};
use crate::encryption::EncryptionInfo;
use crate::merkle::radix_header::RadixHeader;
use crate::merkle::radix_node::{
    encryption_json, entries_json, entry_json, lemma_find_child, lemma_links_view, lemma_node_view, link_json, links_view, node_bytes,
    node_json, opt_enc_view, opt_view, sorted_links, RadixNode, TrieLink, TrieNode,
};
use vstd::utf8::{decode_utf8, encode_utf8, valid_utf8};
use crate::merkle::trie::{child_lookup, lemma_lookup_insert, lemma_lookup_update};
use crate::merkle::trie_exec::{find_link, insert_pos, lemma_links_view_insert, lemma_links_view_update};
use crate::merkle::lenient::lenient_node;
use crate::text::{chars_to_string, str_chars};

verus! {

/// Where the string literal whose body starts at `i` ends: the index after its
/// closing quote. A backslash always takes the character after it along.
pub open spec fn string_end(t: Seq<char>, i: int) -> Option<int>
    decreases t.len() - i,
{
    if i < 0 || i >= t.len() {
        None
    } else if t[i] == '"' {
        Some(i + 1)
    } else if t[i] == '\\' {
        if i + 2 <= t.len() {
            string_end(t, i + 2)
        } else {
            None
        }
    } else {
        string_end(t, i + 1)
    }
}

proof fn lemma_escape_concat(a: Seq<char>, b: Seq<char>)
    ensures
        json_escape(a + b) == json_escape(a) + json_escape(b),
    decreases b.len(),
{
    if b.len() == 0 {
        assert(a + b =~= a);
        assert(json_escape(a) + json_escape(b) =~= json_escape(a));
    } else {
        lemma_escape_concat(a, b.drop_last());
        assert((a + b).drop_last() =~= a + b.drop_last());
        assert((a + b).last() == b.last());
        assert(json_escape(a + b) =~= json_escape(a) + json_escape(b));
    }
}

proof fn lemma_escape_first(x: Seq<char>)
    requires
        x.len() > 0,
    ensures
        json_escape(x) == json_escape_char(x[0]) + json_escape(x.drop_first()),
{
    lemma_escape_concat(seq![x[0]], x.drop_first());
    assert(seq![x[0]] + x.drop_first() =~= x);
    assert(seq![x[0]].drop_last() =~= Seq::<char>::empty());
    assert(seq![x[0]].drop_last() =~= Seq::<char>::empty());
    assert(json_escape(Seq::<char>::empty()) =~= Seq::<char>::empty());
    assert(seq![x[0]].last() == x[0]);
    assert(json_escape(seq![x[0]]) =~= json_escape_char(x[0]));
}

proof fn lemma_hex_plain(d: int)
    requires
        0 <= d < 16,
    ensures
        hex_digit(d) != '"',
        hex_digit(d) != '\\',
{
}

/// Scanning steps over the escaped form of one character.
proof fn lemma_string_end_char(t: Seq<char>, i: int, c: char)
    requires
        0 <= i,
        i + json_escape_char(c).len() < t.len(),
        t.subrange(i, i + json_escape_char(c).len()) == json_escape_char(c),
    ensures
        string_end(t, i) == string_end(t, i + json_escape_char(c).len()),
{
    let e = json_escape_char(c);
    assert forall|j: int| 0 <= j < e.len() implies t[i + j] == e[j] by {
        assert(t.subrange(i, i + e.len())[j] == t[i + j]);
    }
    if e.len() == 6 {
        lemma_hex_plain((c as int) / 16);
        lemma_hex_plain((c as int) % 16);
        assert(t[i] == '\\');
        assert(string_end(t, i) == string_end(t, i + 2));
        assert(t[i + 2] == '0');
        assert(string_end(t, i + 2) == string_end(t, i + 3));
        assert(t[i + 3] == '0');
        assert(string_end(t, i + 3) == string_end(t, i + 4));
        assert(t[i + 4] == hex_digit((c as int) / 16));
        assert(string_end(t, i + 4) == string_end(t, i + 5));
        assert(t[i + 5] == hex_digit((c as int) % 16));
        assert(string_end(t, i + 5) == string_end(t, i + 6));
    } else if e.len() == 2 {
        assert(t[i] == '\\');
    } else {
        assert(e == seq![c]);
        assert(t[i + 0] == e[0]);
        assert(t[i] == c);
    }
}

/// Scanning the body of a literal that `serde_json` wrote finds its closing quote.
proof fn lemma_string_end_escape(t: Seq<char>, i: int, x: Seq<char>)
    requires
        0 <= i,
        i + json_escape(x).len() < t.len(),
        t.subrange(i, i + json_escape(x).len()) == json_escape(x),
        t[i + json_escape(x).len()] == '"',
    ensures
        string_end(t, i) == Some(i + json_escape(x).len() + 1),
    decreases x.len(),
{
    if x.len() == 0 {
        assert(json_escape(x) =~= Seq::<char>::empty());
    } else {
        lemma_escape_first(x);
        let e = json_escape_char(x[0]);
        let r = json_escape(x.drop_first());
        assert(t.subrange(i, i + e.len()) =~= t.subrange(i, i + json_escape(x).len()).subrange(0, e.len() as int));
        assert((e + r).subrange(0, e.len() as int) =~= e);
        lemma_string_end_char(t, i, x[0]);
        assert(t.subrange(i + e.len(), i + e.len() + r.len()) =~= t.subrange(i, i + json_escape(x).len()).subrange(
            e.len() as int,
            (e.len() + r.len()) as int,
        ));
        assert((e + r).subrange(e.len() as int, (e.len() + r.len()) as int) =~= r);
        lemma_string_end_escape(t, i + e.len(), x.drop_first());
    }
}

/// The text `t` holds `s` at position `p`.
pub open spec fn at(t: Seq<char>, p: int, s: Seq<char>) -> bool {
    0 <= p && p + s.len() <= t.len() && t.subrange(p, p + s.len()) == s
}

/// A match of `a + b` is a match of `a` followed by one of `b`.
pub proof fn lemma_at_concat(t: Seq<char>, p: int, a: Seq<char>, b: Seq<char>)
    requires
        at(t, p, a + b),
    ensures
        at(t, p, a),
        at(t, p + a.len(), b),
{
    lemma_peel(t, p, a, b);
}

/// A match of `a` followed by one of `b` is a match of `a + b`.
pub proof fn lemma_at_join(t: Seq<char>, p: int, a: Seq<char>, b: Seq<char>)
    requires
        at(t, p, a),
        at(t, p + a.len(), b),
    ensures
        at(t, p, a + b),
{
    assert(t.subrange(p, p + a.len() + b.len()) =~= t.subrange(p, p + a.len()) + t.subrange(
        p + a.len(),
        p + a.len() + b.len(),
    ));
}

/// Splits a match of `a + b` at position `p` into its two parts.
pub proof fn lemma_peel(t: Seq<char>, p: int, a: Seq<char>, b: Seq<char>)
    requires
        0 <= p,
        p + a.len() + b.len() <= t.len(),
        t.subrange(p, p + a.len() + b.len()) == a + b,
    ensures
        t.subrange(p, p + a.len()) == a,
        t.subrange(p + a.len(), p + a.len() + b.len()) == b,
{
    assert(t.subrange(p, p + a.len()) =~= t.subrange(p, p + a.len() + b.len()).subrange(0, a.len() as int));
    assert((a + b).subrange(0, a.len() as int) =~= a);
    assert(t.subrange(p + a.len(), p + a.len() + b.len()) =~= t.subrange(p, p + a.len() + b.len()).subrange(
        a.len() as int,
        (a.len() + b.len()) as int,
    ));
    assert((a + b).subrange(a.len() as int, (a.len() + b.len()) as int) =~= b);
}

proof fn lemma_string_end_bounds(t: Seq<char>, i: int)
    ensures
        string_end(t, i) matches Some(e) ==> i < e <= t.len(),
    decreases t.len() - i,
{
    if 0 <= i < t.len() && t[i] != '"' {
        if t[i] == '\\' {
            if i + 2 <= t.len() {
                lemma_string_end_bounds(t, i + 2);
            }
        } else {
            lemma_string_end_bounds(t, i + 1);
        }
    }
}

/// The index after the closing quote of the literal whose body starts at `i`.
fn find_string_end(t: &Vec<char>, i: usize) -> (r: Option<usize>)
    requires
        i <= t@.len(),
    ensures
        match r {
            Some(e) => string_end(t@, i as int) == Some(e as int),
            None => string_end(t@, i as int) is None,
        },
{
    let mut j = i;
    while j < t.len()
        invariant
            i <= j <= t@.len(),
            string_end(t@, j as int) == string_end(t@, i as int),
        decreases t.len() - j,
    {
        if t[j] == '"' {
            return Some(j + 1);
        } else if t[j] == '\\' {
            if t.len() - j >= 2 {
                j = j + 2;
            } else {
                return None;
            }
        } else {
            j = j + 1;
        }
    }
    None
}

/// Matches the literal text `lit` at position `p`.
pub(crate) fn expect(t: &Vec<char>, p: usize, lit: &str) -> (r: Option<usize>)
    requires
        p <= t@.len(),
    ensures
        r is Some <==> at(t@, p as int, lit@),
        r matches Some(q) ==> q == p + lit@.len(),
{
    let l = str_chars(lit);
    if l.len() > t.len() - p {
        return None;
    }
    let mut j: usize = 0;
    while j < l.len()
        invariant
            j <= l@.len(),
            p + l@.len() <= t@.len(),
            t@.len() <= usize::MAX,
            l@ == lit@,
            forall|m: int| 0 <= m < j ==> t@[p + m] == l@[m],
        decreases l.len() - j,
    {
        if t[p + j] != l[j] {
            assert(t@.subrange(p as int, p + lit@.len())[j as int] != lit@[j as int]);
            return None;
        }
        j += 1;
    }
    assert(t@.subrange(p as int, p + lit@.len()) =~= lit@);
    Some(p + l.len())
}

/// Reads the string literal at position `p`; a literal that `serde_json` wrote
/// for `x` reads back as `x`.
pub(crate) fn parse_string_at(t: &Vec<char>, p: usize) -> (r: Option<(String, usize)>)
    requires
        p <= t@.len(),
    ensures
        r matches Some((s, e)) ==> p < e <= t@.len(),
        forall|x: Seq<char>| #[trigger] at(t@, p as int, json_quote(x)) ==> (r matches Some((s, e)) && s@ == x
            && e == p + json_quote(x).len()),
{
    if p >= t.len() || t[p] != '"' {
        proof {
            assert forall|x: Seq<char>| #[trigger] at(t@, p as int, json_quote(x)) implies false by {
                assert(json_quote(x)[0] == '"');
                assert(t@.subrange(p as int, p + json_quote(x).len())[0] == t@[p as int]);
            }
        }
        return None;
    }
    let end = match find_string_end(t, p + 1) {
        Some(e) => e,
        None => {
            proof {
                assert forall|x: Seq<char>| #[trigger] at(t@, p as int, json_quote(x)) implies false by {
                    lemma_quote_scan(t@, p as int, x);
                }
            }
            return None;
        },
    };
    proof {
        lemma_string_end_bounds(t@, p + 1);
    }
    let lit = chars_to_string(t, p, end);
    proof {
        assert forall|x: Seq<char>| #[trigger] at(t@, p as int, json_quote(x)) implies end == p + json_quote(
            x,
        ).len() && lit@ == json_quote(x) by {
            lemma_quote_scan(t@, p as int, x);
        }
    }
    match json_parse_string(lit.as_str()) {
        Some(v) => Some((v, end)),
        None => None,
    }
}

/// The scan from the body of a literal that `serde_json` wrote for `x` ends
/// right after it.
proof fn lemma_quote_scan(t: Seq<char>, p: int, x: Seq<char>)
    requires
        0 <= p,
        p + json_quote(x).len() <= t.len(),
        json_quote(x) == t.subrange(p, p + json_quote(x).len()),
    ensures
        string_end(t, p + 1) == Some(p + json_quote(x).len()),
{
    let q = json_quote(x);
    let e = json_escape(x);
    assert(q.len() == e.len() + 2);
    assert forall|j: int| 0 <= j < q.len() implies t[p + j] == q[j] by {
        assert(t.subrange(p, p + q.len())[j] == t[p + j]);
    }
    assert(t.subrange(p + 1, p + 1 + e.len()) =~= e) by {
        assert forall|j: int| 0 <= j < e.len() implies t.subrange(p + 1, p + 1 + e.len())[j] == e[j] by {
            assert(q[j + 1] == e[j]);
        }
    }
    assert(t[p + 1 + e.len()] == q[e.len() + 1int]);
    lemma_string_end_escape(t, p + 1, x);
}

/// A link as it reads back from JSON: its CID and encryption metadata, the node
/// not loaded.
pub open spec fn lazy_link(l: TrieLink) -> TrieLink {
    TrieLink { cid: l.cid, node: None, encryption: l.encryption }
}

/// Reads encryption metadata `{"key_hash":...,"iv":...}` at position `p`.
fn parse_enc(t: &Vec<char>, p: usize) -> (r: Option<(EncryptionInfo, usize)>)
    requires
        p <= t@.len(),
    ensures
        r matches Some((_, e)) ==> p < e <= t@.len(),
        forall|v: (Seq<char>, Seq<char>)| #[trigger] at(t@, p as int, encryption_json(v)) ==> (r matches Some((i, e))
            && i@ == v && e == p + encryption_json(v).len()),
{
    proof {
        assert forall|v: (Seq<char>, Seq<char>)| #[trigger] at(t@, p as int, encryption_json(v)) implies {
            let a = "{\"key_hash\":"@;
            let q0 = json_quote(v.0);
            let b = ",\"iv\":"@;
            let q1 = json_quote(v.1);
            &&& at(t@, p as int, a)
            &&& at(t@, p + a.len(), q0)
            &&& at(t@, p + a.len() + q0.len(), b)
            &&& at(t@, p + a.len() + q0.len() + b.len(), q1)
            &&& at(t@, p + a.len() + q0.len() + b.len() + q1.len(), "}"@)
        } by {
            let a = "{\"key_hash\":"@;
            let q0 = json_quote(v.0);
            let b = ",\"iv\":"@;
            let q1 = json_quote(v.1);
            lemma_at_concat(t@, p as int, a + q0 + b + q1, "}"@);
            lemma_at_concat(t@, p as int, a + q0 + b, q1);
            lemma_at_concat(t@, p as int, a + q0, b);
            lemma_at_concat(t@, p as int, a, q0);
        }
    }
    let p1 = match expect(t, p, "{\"key_hash\":") {
        Some(q) => q,
        None => return None,
    };
    let (key_hash, p2) = match parse_string_at(t, p1) {
        Some(x) => x,
        None => return None,
    };
    let p3 = match expect(t, p2, ",\"iv\":") {
        Some(q) => q,
        None => return None,
    };
    let (iv, p4) = match parse_string_at(t, p3) {
        Some(x) => x,
        None => return None,
    };
    let p5 = match expect(t, p4, "}") {
        Some(q) => q,
        None => return None,
    };
    Some((EncryptionInfo { key_hash, iv }, p5))
}

/// Reads a link `{"raw_cid":...[,"encryption_info":...]}` at position `p`, as a
/// lazy header.
fn parse_link(t: &Vec<char>, p: usize) -> (r: Option<(RadixHeader<String>, usize)>)
    requires
        p <= t@.len(),
    ensures
        r matches Some((h, e)) ==> p < e <= t@.len() && h.node is None,
        forall|l: TrieLink| #[trigger] at(t@, p as int, link_json(l)) ==> (r matches Some((h, e)) && h@ == lazy_link(l)
            && e == p + link_json(l).len()),
{
    proof {
        reveal_strlit(",\"encryption_info\":");
        reveal_strlit("}");
        assert forall|l: TrieLink| #[trigger] at(t@, p as int, link_json(l)) implies {
            let a = "{\"raw_cid\":"@;
            let q = json_quote(l.cid);
            let m = match l.encryption {
                Some(e) => ",\"encryption_info\":"@ + encryption_json(e),
                None => Seq::empty(),
            };
            &&& at(t@, p as int, a)
            &&& at(t@, p + a.len(), q)
            &&& at(t@, p + a.len() + q.len(), m)
            &&& at(t@, p + a.len() + q.len() + m.len(), "}"@)
        } by {
            let a = "{\"raw_cid\":"@;
            let q = json_quote(l.cid);
            let m = match l.encryption {
                Some(e) => ",\"encryption_info\":"@ + encryption_json(e),
                None => Seq::empty(),
            };
            lemma_at_concat(t@, p as int, a + q + m, "}"@);
            lemma_at_concat(t@, p as int, a + q, m);
            lemma_at_concat(t@, p as int, a, q);
        }
    }
    let p1 = match expect(t, p, "{\"raw_cid\":") {
        Some(q) => q,
        None => return None,
    };
    let (raw_cid, p2) = match parse_string_at(t, p1) {
        Some(x) => x,
        None => return None,
    };
    match expect(t, p2, ",\"encryption_info\":") {
        Some(p3) => {
            proof {
                assert forall|l: TrieLink| #[trigger] at(t@, p as int, link_json(l)) implies l.encryption is Some by {
                    if l.encryption is None {
                        assert(at(t@, p2 as int, "}"@));
                        assert(t@.subrange(p2 as int, p2 + 1)[0] == t@[p2 as int]);
                        assert(t@.subrange(p2 as int, p3 as int)[0] == t@[p2 as int]);
                    }
                }
                assert forall|l: TrieLink| #[trigger] at(t@, p as int, link_json(l)) implies at(
                    t@,
                    p3 as int,
                    encryption_json(l.encryption->0),
                ) by {
                    lemma_at_concat(t@, p2 as int, ",\"encryption_info\":"@, encryption_json(l.encryption->0));
                }
            }
            let (info, p4) = match parse_enc(t, p3) {
                Some(x) => x,
                None => return None,
            };
            let p5 = match expect(t, p4, "}") {
                Some(q) => q,
                None => return None,
            };
            Some((RadixHeader { raw_cid, node: None, encryption_info: Some(info) }, p5))
        },
        None => {
            proof {
                assert forall|l: TrieLink| #[trigger] at(t@, p as int, link_json(l)) implies l.encryption is None by {
                    if l.encryption is Some {
                        lemma_at_concat(
                            t@,
                            p2 as int,
                            ",\"encryption_info\":"@,
                            encryption_json(l.encryption->0),
                        );
                    }
                }
            }
            let p5 = match expect(t, p2, "}") {
                Some(q) => q,
                None => return None,
            };
            proof {
                assert forall|l: TrieLink| #[trigger] at(t@, p as int, link_json(l)) implies p5 == p
                    + link_json(l).len() by {
                    assert(l.encryption is None);
                }
            }
            Some((RadixHeader { raw_cid, node: None, encryption_info: None }, p5))
        },
    }
}

/// Reads a sorted entry `{"key":...,"value":...}` at position `p`.
fn parse_entry(t: &Vec<char>, p: usize) -> (r: Option<(String, RadixHeader<String>, usize)>)
    requires
        p <= t@.len(),
    ensures
        r matches Some((_, h, e)) ==> p < e <= t@.len() && h.node is None,
        forall|x: (char, TrieLink)| #[trigger] at(t@, p as int, entry_json(x)) ==> (r matches Some((k, h, e))
            && k@ == seq![x.0] && h@ == lazy_link(x.1) && e == p + entry_json(x).len()),
{
    proof {
        assert forall|x: (char, TrieLink)| #[trigger] at(t@, p as int, entry_json(x)) implies {
            let a = "{\"key\":"@;
            let q = json_quote(seq![x.0]);
            let b = ",\"value\":"@;
            let l = link_json(x.1);
            &&& at(t@, p as int, a)
            &&& at(t@, p + a.len(), q)
            &&& at(t@, p + a.len() + q.len(), b)
            &&& at(t@, p + a.len() + q.len() + b.len(), l)
            &&& at(t@, p + a.len() + q.len() + b.len() + l.len(), "}"@)
        } by {
            let a = "{\"key\":"@;
            let q = json_quote(seq![x.0]);
            let b = ",\"value\":"@;
            let l = link_json(x.1);
            lemma_at_concat(t@, p as int, a + q + b + l, "}"@);
            lemma_at_concat(t@, p as int, a + q + b, l);
            lemma_at_concat(t@, p as int, a + q, b);
            lemma_at_concat(t@, p as int, a, q);
        }
    }
    let p1 = match expect(t, p, "{\"key\":") {
        Some(q) => q,
        None => return None,
    };
    let (key, p2) = match parse_string_at(t, p1) {
        Some(x) => x,
        None => return None,
    };
    let p3 = match expect(t, p2, ",\"value\":") {
        Some(q) => q,
        None => return None,
    };
    let (h, p4) = match parse_link(t, p3) {
        Some(x) => x,
        None => return None,
    };
    let p5 = match expect(t, p4, "}") {
        Some(q) => q,
        None => return None,
    };
    Some((key, h, p5))
}

/// Links as they read back from JSON.
pub open spec fn lazy_links(s: Seq<(char, TrieLink)>) -> Seq<(char, TrieLink)> {
    s.map_values(|x: (char, TrieLink)| (x.0, lazy_link(x.1)))
}

/// The text holds, at `p`, the entries of the sorted links `s` and the closing bracket.
pub open spec fn canon_entries(t: Seq<char>, p: int, s: Seq<(char, TrieLink)>) -> bool {
    sorted_links(s) && at(t, p, entries_json(s) + "]"@)
}

/// The separator written before entry `k`.
spec fn entry_sep(k: int) -> Seq<char> {
    if k == 0 {
        Seq::empty()
    } else {
        ","@
    }
}

proof fn lemma_entries_take(s: Seq<(char, TrieLink)>, k: int)
    requires
        0 <= k < s.len(),
    ensures
        entries_json(s.take(k + 1)) == entries_json(s.take(k)) + entry_sep(k) + entry_json(s[k]),
{
    let a = s.take(k + 1);
    assert(a.drop_last() =~= s.take(k));
    assert(a.last() == s[k]);
    if k == 0 {
        assert(entries_json(s.take(0)) =~= Seq::<char>::empty());
        assert(entries_json(s.take(1)) == entry_json(s[0]));
        assert(entries_json(s.take(0)) + entry_sep(0) + entry_json(s[0]) =~= entry_json(s[0]));
    }
}

/// The entries of a prefix of `s` are written first.
proof fn lemma_entries_prefix(s: Seq<(char, TrieLink)>, k: int)
    requires
        0 <= k <= s.len(),
    ensures
        entries_json(s) =~= entries_json(s.take(k)) + entries_json(s).skip(entries_json(s.take(k)).len() as int),
        entries_json(s.take(k)).len() <= entries_json(s).len(),
    decreases s.len() - k,
{
    if k == s.len() {
        assert(s.take(k) =~= s);
    } else {
        lemma_entries_prefix(s, k + 1);
        lemma_entries_take(s, k);
        let a = entries_json(s.take(k));
        let b = entries_json(s.take(k + 1));
        let w = entries_json(s);
        assert(w =~= b + w.skip(b.len() as int));
        assert(w.take(a.len() as int) =~= a) by {
            assert(w.take(a.len() as int) =~= b.take(a.len() as int));
            assert(b =~= a + (entry_sep(k) + entry_json(s[k])));
        }
        assert(w =~= w.take(a.len() as int) + w.skip(a.len() as int));
    }
}

/// What the text holds at the position of entry `k` of `s`.
proof fn lemma_entries_step(t: Seq<char>, p: int, s: Seq<(char, TrieLink)>, k: int)
    requires
        canon_entries(t, p, s),
        0 <= k <= s.len(),
    ensures
        k < s.len() ==> at(t, p + entries_json(s.take(k)).len(), entry_sep(k)) && at(
            t,
            p + entries_json(s.take(k)).len() + entry_sep(k).len(),
            entry_json(s[k]),
        ) && entries_json(s.take(k + 1)).len() == entries_json(s.take(k)).len() + entry_sep(k).len()
            + entry_json(s[k]).len(),
        k == s.len() ==> at(t, p + entries_json(s.take(k)).len(), "]"@),
{
    let w = entries_json(s);
    if k == s.len() {
        assert(s.take(k) =~= s);
        lemma_at_concat(t, p, w, "]"@);
    } else {
        lemma_entries_prefix(s, k + 1);
        lemma_entries_take(s, k);
        let b = entries_json(s.take(k + 1));
        assert(w + "]"@ =~= b + (w.skip(b.len() as int) + "]"@));
        lemma_at_concat(t, p, b, w.skip(b.len() as int) + "]"@);
        let a = entries_json(s.take(k));
        assert(b =~= a + (entry_sep(k) + entry_json(s[k])));
        lemma_at_concat(t, p, a, entry_sep(k) + entry_json(s[k]));
        lemma_at_concat(t, p + a.len(), entry_sep(k), entry_json(s[k]));
    }
}

/// Adds a lazy link keyed by `c`, replacing one with the same key; keys stay sorted.
pub(crate) fn add_link(out: &mut Vec<(char, RadixHeader<String>)>, c: char, h: RadixHeader<String>)
    requires
        sorted_links(links_view(old(out)@)),
        forall|j: int| 0 <= j < old(out)@.len() ==> (#[trigger] old(out)@[j]).1.node is None,
        h.node is None,
    ensures
        sorted_links(links_view(final(out)@)),
        forall|j: int| 0 <= j < final(out)@.len() ==> (#[trigger] final(out)@[j]).1.node is None,
        old(out)@.len() == 0 || (old(out)@.last().0 as int) < (c as int) ==> final(out)@ == old(out)@.push((c, h)),
        forall|x: char|
            #[trigger] child_lookup(links_view(final(out)@), x) == if x == c {
                Some(h@)
            } else {
                child_lookup(links_view(old(out)@), x)
            },
{
    proof {
        lemma_links_view(out@);
    }
    let n = out.len();
    if n == 0 || out[n - 1].0 < c {
        let ghost o = out@;
        out.push((c, h));
        proof {
            lemma_links_view(out@);
            assert forall|a: int, b: int| 0 <= a < b < links_view(out@).len() implies (links_view(out@)[a].0 as int) < (
            links_view(out@)[b].0 as int) by {
                assert(links_view(out@)[a].0 == out@[a].0);
                assert(links_view(out@)[b].0 == out@[b].0);
                if b < n {
                    assert(links_view(o)[a].0 == o[a].0);
                    assert(links_view(o)[b].0 == o[b].0);
                } else if a < n - 1 {
                    assert(links_view(o)[a].0 == o[a].0);
                    assert(links_view(o)[n - 1].0 == o[n - 1].0);
                }
            }
            assert forall|j: int| 0 <= j < out@.len() implies (#[trigger] out@[j]).1.node is None by {
                if j < n {
                    assert(out@[j] == o[j]);
                }
            }
            lemma_links_view_insert(o, n as int, (c, h));
            assert(o.insert(n as int, (c, h)) =~= o.push((c, h)));
            assert forall|j: int| 0 <= j < links_view(o).len() implies links_view(o)[j].0 != c by {
                assert(links_view(o)[j].0 == o[j].0);
                if j < n - 1 {
                    assert(links_view(o)[n - 1].0 == o[n - 1].0);
                }
            }
            assert forall|x: char| #[trigger] child_lookup(links_view(out@), x) == if x == c {
                Some(h@)
            } else {
                child_lookup(links_view(o), x)
            } by {
                lemma_lookup_insert(links_view(o), n as int, c, h@, x);
            }
        }
        return;
    }
    match find_link(out, c) {
        Some(i) => {
            let ghost o = out@;
            out.set(i, (c, h));
            proof {
                lemma_links_view_update(o, i as int, (c, h));
                assert(links_view(o)[i as int].0 == c);
                assert(links_view(out@) =~= links_view(o).update(i as int, (links_view(o)[i as int].0, h@)));
                assert forall|x: char| #[trigger] child_lookup(links_view(out@), x) == if x == c {
                    Some(h@)
                } else {
                    child_lookup(links_view(o), x)
                } by {
                    lemma_lookup_update(links_view(o), i as int, h@, x);
                }
            }
        },
        None => {
            let pos = insert_pos(out, c);
            let ghost o = out@;
            out.insert(pos, (c, h));
            proof {
                lemma_links_view_insert(o, pos as int, (c, h));
                lemma_links_view(out@);
                assert forall|a: int, b: int| 0 <= a < b < links_view(out@).len() implies (links_view(out@)[a].0 as int) < (
                links_view(out@)[b].0 as int) by {
                    assert(links_view(out@)[a].0 == out@[a].0);
                    assert(links_view(out@)[b].0 == out@[b].0);
                    if a < pos && b < pos {
                        assert(links_view(o)[a].0 == o[a].0);
                        assert(links_view(o)[b].0 == o[b].0);
                    } else if a > pos && b > pos {
                        assert(links_view(o)[a - 1].0 == o[a - 1].0);
                        assert(links_view(o)[b - 1].0 == o[b - 1].0);
                    }
                }
                assert forall|j: int| 0 <= j < out@.len() implies (#[trigger] out@[j]).1.node is None by {
                    if j < pos {
                        assert(out@[j] == o[j]);
                    } else if j > pos {
                        assert(out@[j] == o[j - 1]);
                    }
                }
                assert forall|j: int| 0 <= j < links_view(o).len() implies links_view(o)[j].0 != c by {
                    assert(links_view(o)[j].0 == o[j].0);
                }
                assert forall|x: char| #[trigger] child_lookup(links_view(out@), x) == if x == c {
                    Some(h@)
                } else {
                    child_lookup(links_view(o), x)
                } by {
                    lemma_lookup_insert(links_view(o), pos as int, c, h@, x);
                }
            }
        },
    }
}

/// An entry as the serialized form lists it: its key, the child's CID and the
/// child's encryption metadata.
pub open spec fn entry_view(e: (String, String, Option<EncryptionInfo>)) -> (Seq<char>, TrieLink) {
    (e.0@, TrieLink { cid: e.1@, node: None, encryption: opt_enc_view(e.2) })
}

pub open spec fn entries_view(s: Seq<(String, String, Option<EncryptionInfo>)>) -> Seq<(Seq<char>, TrieLink)> {
    s.map_values(|e: (String, String, Option<EncryptionInfo>)| entry_view(e))
}

/// The link given by the last entry whose key starts with `c`, if any; entries
/// with an empty key give none.
pub open spec fn last_entry_link(s: Seq<(Seq<char>, TrieLink)>, c: char) -> Option<TrieLink>
    decreases s.len(),
{
    if s.len() == 0 {
        None
    } else if s.last().0.len() > 0 && s.last().0[0] == c {
        Some(s.last().1)
    } else {
        last_entry_link(s.drop_last(), c)
    }
}

/// Builds lazy child links from listed entries: each entry is keyed by the
/// first character of its key, entries with an empty key are skipped, a later
/// entry replaces an earlier one with the same first character, and the links
/// come out sorted.
pub fn links_from_entries(entries: &Vec<(String, String, Option<EncryptionInfo>)>) -> (out: Vec<(char, RadixHeader<String>)>)
    ensures
        sorted_links(links_view(out@)),
        forall|j: int| 0 <= j < out@.len() ==> (#[trigger] out@[j]).1.node is None,
        forall|c: char| #[trigger] child_lookup(links_view(out@), c) == last_entry_link(entries_view(entries@), c),
{
    let mut out: Vec<(char, RadixHeader<String>)> = Vec::new();
    let mut i: usize = 0;
    proof {
        lemma_links_view(out@);
        assert forall|c: char| #[trigger] child_lookup(links_view(out@), c) == last_entry_link(
            entries_view(entries@.take(0)),
            c,
        ) by {
            assert(entries_view(entries@.take(0)).len() == 0);
            lemma_find_child(links_view(out@), c);
        }
    }
    while i < entries.len()
        invariant
            i <= entries@.len(),
            sorted_links(links_view(out@)),
            forall|j: int| 0 <= j < out@.len() ==> (#[trigger] out@[j]).1.node is None,
            forall|c: char| #[trigger] child_lookup(links_view(out@), c) == last_entry_link(
                entries_view(entries@.take(i as int)),
                c,
            ),
        decreases entries@.len() - i,
    {
        let e = &entries[i];
        let kc = str_chars(e.0.as_str());
        let ghost before = out@;
        if kc.len() > 0 {
            let enc = match &e.2 {
                Some(x) => Some(x.clone()),
                None => None,
            };
            let h = RadixHeader::new(e.1.clone(), None, enc);
            add_link(&mut out, kc[0], h);
        }
        proof {
            let s1 = entries_view(entries@.take(i + 1));
            assert(s1.drop_last() =~= entries_view(entries@.take(i as int)));
            assert(s1.last() == entry_view(entries@[i as int]));
            assert forall|c: char| #[trigger] child_lookup(links_view(out@), c) == last_entry_link(s1, c) by {
                if kc@.len() == 0 {
                    assert(out@ == before);
                }
            }
        }
        i += 1;
    }
    proof {
        assert(entries@.take(i as int) =~= entries@);
    }
    out
}

/// Reads comma-separated entries up to the closing bracket at position `p`,
/// returning the links sorted by key (a later entry with the same key wins) and
/// the position of the bracket.
fn parse_entries(t: &Vec<char>, p: usize) -> (r: Option<(Vec<(char, RadixHeader<String>)>, usize)>)
    requires
        p <= t@.len(),
    ensures
        r matches Some((v, e)) ==> p <= e < t@.len() && sorted_links(links_view(v@)) && forall|j: int|
            0 <= j < v@.len() ==> (#[trigger] v@[j]).1.node is None,
        forall|s: Seq<(char, TrieLink)>| #[trigger] canon_entries(t@, p as int, s) ==> (r matches Some((v, e))
            && links_view(v@) == lazy_links(s) && e == p + entries_json(s).len()),
{
    let mut out: Vec<(char, RadixHeader<String>)> = Vec::new();
    let mut q = p;
    let mut first = true;
    let ghost mut k: int = 0;
    proof {
        lemma_links_view(out@);
        assert forall|s: Seq<(char, TrieLink)>| #[trigger] canon_entries(t@, p as int, s) implies links_view(out@)
            == lazy_links(s.take(0)) && entries_json(s.take(0)).len() == 0 by {
            assert(lazy_links(s.take(0)) =~= Seq::<(char, TrieLink)>::empty());
            assert(links_view(out@) =~= Seq::<(char, TrieLink)>::empty());
        }
        reveal_strlit("]");
        reveal_strlit(",");
    }
    while q < t.len()
        invariant
            p <= q <= t@.len(),
            0 <= k,
            first == (k == 0),
            sorted_links(links_view(out@)),
            forall|j: int| 0 <= j < out@.len() ==> (#[trigger] out@[j]).1.node is None,
            forall|s: Seq<(char, TrieLink)>| #[trigger] canon_entries(t@, p as int, s) ==> k <= s.len() && q == p
                + entries_json(s.take(k)).len() && links_view(out@) == lazy_links(s.take(k)),
            "]"@ == seq![']'],
            ","@ == seq![','],
        decreases t.len() - q,
    {
        if t[q] == ']' {
            proof {
                assert forall|s: Seq<(char, TrieLink)>| #[trigger] canon_entries(t@, p as int, s) implies k == s.len() by {
                    if k < s.len() {
                        lemma_entries_step(t@, p as int, s, k);
                        reveal_strlit("{\"key\":");
                        if k == 0 {
                            assert(t@.subrange(q as int, q + entry_json(s[k]).len())[0] == t@[q as int]);
                        } else {
                            assert(t@.subrange(q as int, q + 1)[0] == t@[q as int]);
                        }
                    }
                }
                assert forall|s: Seq<(char, TrieLink)>| #[trigger] canon_entries(t@, p as int, s) implies links_view(out@)
                    == lazy_links(s) && q == p + entries_json(s).len() by {
                    assert(s.take(k) =~= s);
                }
            }
            return Some((out, q));
        }
        proof {
            assert forall|s: Seq<(char, TrieLink)>| #[trigger] canon_entries(t@, p as int, s) implies k < s.len() by {
                if k == s.len() {
                    lemma_entries_step(t@, p as int, s, k);
                    assert(t@.subrange(q as int, q + 1)[0] == t@[q as int]);
                }
            }
        }
        let start = if first {
            q
        } else {
            match expect(t, q, ",") {
                Some(q1) => q1,
                None => {
                    proof {
                        assert forall|s: Seq<(char, TrieLink)>| #[trigger] canon_entries(t@, p as int, s) implies false by {
                            lemma_entries_step(t@, p as int, s, k);
                        }
                    }
                    return None;
                },
            }
        };
        proof {
            assert forall|s: Seq<(char, TrieLink)>| #[trigger] canon_entries(t@, p as int, s) implies at(
                t@,
                start as int,
                entry_json(s[k]),
            ) by {
                lemma_entries_step(t@, p as int, s, k);
            }
        }
        let (key, h, q2) = match parse_entry(t, start) {
            Some(x) => x,
            None => return None,
        };
        let kc = str_chars(key.as_str());
        let ghost before = out@;
        if kc.len() > 0 {
            add_link(&mut out, kc[0], h);
        }
        proof {
            assert forall|s: Seq<(char, TrieLink)>| #[trigger] canon_entries(t@, p as int, s) implies k + 1 <= s.len()
                && q2 == p + entries_json(s.take(k + 1)).len() && links_view(out@) == lazy_links(s.take(k + 1)) by {
                lemma_entries_step(t@, p as int, s, k);
                assert(kc@ == seq![s[k].0]);
                let x = (s[k].0, h);
                lemma_links_view(before);
                if k > 0 {
                    assert(before.last().0 == links_view(before)[k - 1].0);
                    assert(lazy_links(s.take(k))[k - 1].0 == s[k - 1].0);
                }
                lemma_links_view_insert(before, before.len() as int, x);
                assert(before.insert(before.len() as int, x) =~= before.push(x));
                assert(lazy_links(s.take(k + 1)) =~= lazy_links(s.take(k)).push((s[k].0, lazy_link(s[k].1))));
                assert(links_view(before).insert(before.len() as int, (x.0, h@)) =~= links_view(before).push((x.0, h@)));
            }
        }
        q = q2;
        first = false;
        proof {
            k = k + 1;
        }
    }
    proof {
        assert forall|s: Seq<(char, TrieLink)>| #[trigger] canon_entries(t@, p as int, s) implies false by {
            lemma_entries_step(t@, p as int, s, k);
            if k < s.len() {
                lemma_entries_step(t@, p as int, s, k);
            }
        }
    }
    None
}

/// The characters of UTF-8 bytes.
///
/// Trusted: `std::str::from_utf8`, which accepts exactly the valid UTF-8 byte
/// sequences, and `to_string` on the resulting `&str`.
#[verifier::external_body]
pub(crate) fn utf8_text(data: &[u8]) -> (r: Option<String>)
    ensures
        r is Some <==> valid_utf8(data@),
        r matches Some(s) ==> s@ == decode_utf8(data@),
{
    match std::str::from_utf8(data) {
        Ok(s) => Some(s.to_string()),
        Err(_) => None,
    }
}

/// The characters of the bytes `data` wrote for the text `x`.
pub(crate) fn text_of(data: &[u8]) -> (r: Option<Vec<char>>)
    ensures
        forall|x: Seq<char>| #[trigger] encode_utf8(x) == data@ ==> (r matches Some(v) && v@ == x),
{
    match utf8_text(data) {
        Some(s) => {
            proof {
                assert forall|x: Seq<char>| #[trigger] encode_utf8(x) == data@ implies s@ == x by {
                    vstd::utf8::encode_utf8_decode_utf8(x);
                }
            }
            Some(str_chars(s.as_str()))
        },
        None => {
            proof {
                assert forall|x: Seq<char>| #[trigger] encode_utf8(x) == data@ implies false by {
                    vstd::utf8::encode_utf8_valid_utf8(x);
                }
            }
            None
        },
    }
}

proof fn lemma_decimal_digits(n: nat)
    ensures
        decimal(n).len() >= 1,
        forall|i: int| 0 <= i < decimal(n).len() ==> '0' <= #[trigger] decimal(n)[i] <= '9',
    decreases n,
{
    if n >= 10 {
        lemma_decimal_digits(n / 10);
    }
}

/// Reads an unsigned integer at position `p`.
pub(crate) fn parse_count(t: &Vec<char>, p: usize) -> (r: Option<(usize, usize)>)
    requires
        p <= t@.len(),
    ensures
        r matches Some((_, e)) ==> p < e <= t@.len(),
        forall|n: usize| #[trigger] at(t@, p as int, decimal(n as nat) + "}"@) ==> (r matches Some((c, e)) && c == n
            && e == p + decimal(n as nat).len()),
{
    let mut j = p;
    while j < t.len() && '0' <= t[j] && t[j] <= '9'
        invariant
            p <= j <= t@.len(),
            forall|i: int| p <= i < j ==> '0' <= #[trigger] t@[i] <= '9',
        decreases t.len() - j,
    {
        j += 1;
    }
    proof {
        reveal_strlit("}");
        assert forall|n: usize| #[trigger] at(t@, p as int, decimal(n as nat) + "}"@) implies j == p + decimal(
            n as nat,
        ).len() by {
            let d = decimal(n as nat);
            lemma_decimal_digits(n as nat);
            lemma_at_concat(t@, p as int, d, "}"@);
            assert forall|i: int| 0 <= i < d.len() implies t@[p + i] == d[i] by {
                assert(t@.subrange(p as int, p + d.len())[i] == t@[p + i]);
            }
            assert(t@.subrange(p + d.len(), p + d.len() + 1)[0] == t@[p + d.len()]);
            if j < p + d.len() {
                assert(t@[j as int] == d[j - p]);
            } else if j > p + d.len() {
                assert('0' <= t@[p + d.len()] <= '9');
            }
        }
    }
    if j == p {
        proof {
            assert forall|n: usize| #[trigger] at(t@, p as int, decimal(n as nat) + "}"@) implies false by {
                lemma_decimal_digits(n as nat);
            }
        }
        return None;
    }
    let lit = chars_to_string(t, p, j);
    proof {
        assert forall|n: usize| #[trigger] at(t@, p as int, decimal(n as nat) + "}"@) implies lit@ == decimal(
            n as nat,
        ) by {
            lemma_at_concat(t@, p as int, decimal(n as nat), "}"@);
        }
    }
    match json_parse_usize(lit.as_str()) {
        Some(n) => Some((n, j)),
        None => None,
    }
}

/// Reads the text of a dictionary, `{"children":[...],"count":N}`, returning its
/// links, sorted and lazy, and its counter.
pub(crate) fn parse_dict(t: &Vec<char>) -> (r: Option<(Vec<(char, RadixHeader<String>)>, usize)>)
    ensures
        r matches Some((v, _)) ==> sorted_links(links_view(v@)) && forall|j: int|
            0 <= j < v@.len() ==> (#[trigger] v@[j]).1.node is None,
        forall|s: Seq<(char, TrieLink)>, n: usize|
            sorted_links(s) && t@ == #[trigger] dict_text(s, n as nat) ==> (r matches Some((v, c)) && links_view(v@)
                == lazy_links(s) && c == n),
{
    proof {
        reveal_strlit("],\"count\":");
        reveal_strlit("]");
        reveal_strlit(",\"count\":");
        reveal_strlit("}");
        assert("],\"count\":"@ =~= "]"@ + ",\"count\":"@);
        assert forall|s: Seq<(char, TrieLink)>, n: usize|
            sorted_links(s) && t@ == #[trigger] dict_text(s, n as nat) implies {
            let a = "{\"children\":["@;
            let e = entries_json(s);
            let b = "],\"count\":"@;
            &&& at(t@, 0, a)
            &&& canon_entries(t@, a.len() as int, s)
            &&& at(t@, (a.len() + e.len()) as int, b)
            &&& at(t@, (a.len() + e.len() + b.len()) as int, decimal(n as nat) + "}"@)
            &&& at(t@, (a.len() + e.len() + b.len() + decimal(n as nat).len()) as int, "}"@)
            &&& t@.len() == a.len() + e.len() + b.len() + decimal(n as nat).len() + 1
        } by {
            let a = "{\"children\":["@;
            let e = entries_json(s);
            let b = "],\"count\":"@;
            let d = decimal(n as nat);
            assert(t@.subrange(0, t@.len() as int) =~= t@);
            assert(dict_text(s, n as nat) =~= a + e + b + (d + "}"@));
            lemma_at_concat(t@, 0, a + e + b, d + "}"@);
            lemma_at_concat(t@, 0, a + e, b);
            lemma_at_concat(t@, 0, a, e);
            assert(b =~= "]"@ + ",\"count\":"@);
            lemma_at_concat(t@, (a.len() + e.len()) as int, "]"@, ",\"count\":"@);
            lemma_at_join(t@, a.len() as int, e, "]"@);
            lemma_at_concat(t@, (a.len() + e.len() + b.len()) as int, d, "}"@);
        }
    }
    let p1 = match expect(t, 0, "{\"children\":[") {
        Some(q) => q,
        None => return None,
    };
    let (links, p2) = match parse_entries(t, p1) {
        Some(x) => x,
        None => return None,
    };
    let p3 = match expect(t, p2, "],\"count\":") {
        Some(q) => q,
        None => return None,
    };
    let (count, p4) = match parse_count(t, p3) {
        Some(x) => x,
        None => return None,
    };
    let p5 = match expect(t, p4, "}") {
        Some(q) => q,
        None => return None,
    };
    if p5 != t.len() {
        return None;
    }
    Some((links, count))
}

/// The text of a dictionary with the links `s` and the counter `n`.
pub open spec fn dict_text(s: Seq<(char, TrieLink)>, n: nat) -> Seq<char> {
    "{\"children\":["@ + entries_json(s) + "],\"count\":"@ + decimal(n) + "}"@
}

/// Reads the text of a node, `{"prefix":...[,"value":...],"children":[...]}`,
/// returning its prefix, its value and its links, sorted and lazy.
fn parse_node(t: &Vec<char>) -> (r: Option<(String, Option<String>, Vec<(char, RadixHeader<String>)>)>)
    ensures
        r matches Some((_, _, v)) ==> sorted_links(links_view(v@)) && forall|j: int|
            0 <= j < v@.len() ==> (#[trigger] v@[j]).1.node is None,
        forall|m: TrieNode|
            sorted_links(m.children) && t@ == #[trigger] node_json(m) ==> (r matches Some((pf, val, v)) && pf@
                == m.prefix && opt_view(val) == m.value && links_view(v@) == lazy_links(m.children)),
{
    proof {
        reveal_strlit(",\"value\":");
        reveal_strlit(",\"children\":[");
        reveal_strlit("]}");
        reveal_strlit("]");
        reveal_strlit("}");
        assert("]}"@ =~= "]"@ + "}"@);
        assert forall|m: TrieNode| sorted_links(m.children) && t@ == #[trigger] node_json(m) implies {
            let a = "{\"prefix\":"@;
            let q = json_quote(m.prefix);
            let mv = match m.value {
                Some(v) => ",\"value\":"@ + json_quote(v),
                None => Seq::empty(),
            };
            let c = ",\"children\":["@;
            let e = entries_json(m.children);
            &&& at(t@, 0, a)
            &&& at(t@, a.len() as int, q)
            &&& at(t@, (a.len() + q.len()) as int, mv)
            &&& at(t@, (a.len() + q.len() + mv.len()) as int, c)
            &&& canon_entries(t@, (a.len() + q.len() + mv.len() + c.len()) as int, m.children)
            &&& at(t@, (a.len() + q.len() + mv.len() + c.len() + e.len()) as int, "]}"@)
            &&& t@.len() == a.len() + q.len() + mv.len() + c.len() + e.len() + 2
        } by {
            let a = "{\"prefix\":"@;
            let q = json_quote(m.prefix);
            let mv = match m.value {
                Some(v) => ",\"value\":"@ + json_quote(v),
                None => Seq::empty(),
            };
            let c = ",\"children\":["@;
            let e = entries_json(m.children);
            let pe = (a.len() + q.len() + mv.len() + c.len()) as int;
            assert(t@.subrange(0, t@.len() as int) =~= t@);
            lemma_at_concat(t@, 0, a + q + mv + c + e, "]}"@);
            lemma_at_concat(t@, 0, a + q + mv + c, e);
            lemma_at_concat(t@, 0, a + q + mv, c);
            lemma_at_concat(t@, 0, a + q, mv);
            lemma_at_concat(t@, 0, a, q);
            lemma_at_concat(t@, pe + e.len(), "]"@, "}"@);
            lemma_at_join(t@, pe, e, "]"@);
        }
    }
    let p1 = match expect(t, 0, "{\"prefix\":") {
        Some(q) => q,
        None => return None,
    };
    let (prefix, p2) = match parse_string_at(t, p1) {
        Some(x) => x,
        None => return None,
    };
    let (value, p4) = match expect(t, p2, ",\"value\":") {
        Some(p3) => {
            proof {
                assert forall|m: TrieNode| sorted_links(m.children) && t@ == #[trigger] node_json(m) implies m.value is Some
                    && at(t@, p3 as int, json_quote(m.value->0)) by {
                    if m.value is None {
                        assert(t@.subrange(p2 as int, p3 as int)[2] == t@[p2 + 2]);
                        assert(t@.subrange(p2 as int, p2 + ",\"children\":["@.len())[2] == t@[p2 + 2]);
                    } else {
                        lemma_at_concat(t@, p2 as int, ",\"value\":"@, json_quote(m.value->0));
                    }
                }
            }
            match parse_string_at(t, p3) {
                Some((v, p4)) => (Some(v), p4),
                None => return None,
            }
        },
        None => {
            proof {
                assert forall|m: TrieNode| sorted_links(m.children) && t@ == #[trigger] node_json(m) implies m.value is None by {
                    if m.value is Some {
                        lemma_at_concat(t@, p2 as int, ",\"value\":"@, json_quote(m.value->0));
                    }
                }
            }
            (None, p2)
        },
    };
    let p5 = match expect(t, p4, ",\"children\":[") {
        Some(q) => q,
        None => return None,
    };
    let (links, p6) = match parse_entries(t, p5) {
        Some(x) => x,
        None => return None,
    };
    let p7 = match expect(t, p6, "]}") {
        Some(q) => q,
        None => return None,
    };
    if p7 != t.len() {
        return None;
    }
    Some((prefix, value, links))
}

/// The message of every decoding error.
fn layout_error() -> (e: crate::error::CashewError)
    ensures
        e is DecodeError,
{
    crate::error::CashewError::DecodeError(String::from_str("unexpected JSON layout"))
}

impl RadixNode<String> {
    /// Builds a node from its prefix, its value and its listed child entries, as
    /// the serialized form holds them: each entry keyed by the first character
    /// of its key (entries with an empty key are skipped, a later entry replaces
    /// an earlier one), all links lazy.
    pub fn from_entries(
        prefix: String,
        value: Option<String>,
        entries: Vec<(String, String, Option<EncryptionInfo>)>,
    ) -> (n: Self)
        ensures
            n@.prefix == prefix@,
            n@.value == opt_view(value),
            sorted_links(n@.children),
            forall|j: int| 0 <= j < n@.children.len() ==> (#[trigger] n@.children[j]).1.node is None,
            forall|c: char| #[trigger] child_lookup(n@.children, c) == last_entry_link(entries_view(entries@), c),
    {
        let children = links_from_entries(&entries);
        let ghost c = children@;
        let n = RadixNode { prefix, value, children };
        proof {
            lemma_node_view(n);
            lemma_links_view(c);
            assert forall|j: int| 0 <= j < n@.children.len() implies (#[trigger] n@.children[j]).1.node is None by {
                assert(n@.children[j] == (c[j].0, c[j].1@));
            }
        }
        n
    }

    /// Deserializes a node from its JSON bytes: exactly what `to_data` wrote, or
    /// the same form in another JSON layout. Its child links come back lazy.
    pub fn from_data(data: &[u8]) -> (r: Result<Self, crate::error::CashewError>)
        ensures
            r matches Ok(n) ==> sorted_links(n@.children) && forall|j: int|
                0 <= j < n@.children.len() ==> (#[trigger] n@.children[j]).1.node is None,
            r matches Err(e) ==> e is DecodeError,
            forall|m: TrieNode|
                sorted_links(m.children) && #[trigger] node_bytes(m) == data@ ==> (r matches Ok(n) && n@ == TrieNode {
                    prefix: m.prefix,
                    value: m.value,
                    children: lazy_links(m.children),
                }),
    {
        let t = match text_of(data) {
            Some(t) => t,
            None => return Err(layout_error()),
        };
        proof {
            assert forall|m: TrieNode| sorted_links(m.children) && #[trigger] node_bytes(m) == data@ implies t@ == node_json(
                m,
            ) by {
                assert(encode_utf8(node_json(m)) == data@);
            }
        }
        match parse_node(&t) {
            Some((prefix, value, children)) => {
                let n = RadixNode { prefix, value, children };
                proof {
                    lemma_node_view(n);
                    lemma_links_view(n.children@);
                    assert forall|j: int| 0 <= j < n@.children.len() implies (#[trigger] n@.children[j]).1.node is None by {
                        assert(n@.children[j] == (n.children@[j].0, n.children@[j].1@));
                    }
                }
                Ok(n)
            },
            None => match lenient_node(&t) {
                Some((prefix, value, children)) => {
                    let n = RadixNode { prefix, value, children };
                    proof {
                        lemma_node_view(n);
                        lemma_links_view(n.children@);
                        assert forall|j: int| 0 <= j < n@.children.len() implies (#[trigger] n@.children[j]).1.node is None by {
                            assert(n@.children[j] == (n.children@[j].0, n.children@[j].1@));
                        }
                    }
                    Ok(n)
                },
                None => Err(layout_error()),
            },
        }
    }
}

} // verus!
