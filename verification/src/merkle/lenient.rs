//! Reading the JSON forms of nodes and dictionaries in any layout that a JSON
//! reader accepts: whitespace between tokens, fields in any order, unknown
//! fields (skipped), and `null` or a missing field for optional values. A field
//! given twice or a missing required field is refused.
use vstd::prelude::*;
use crate::encryption::EncryptionInfo;
use crate::merkle::decode::{add_link, expect, parse_count, parse_string_at};
use crate::merkle::radix_header::RadixHeader;
use crate::merkle::radix_node::{lemma_find_child, lemma_links_view, links_view, sorted_links, TrieLink};
use crate::merkle::decode::last_entry_link;
use crate::merkle::trie::child_lookup;
use crate::text::{str_chars, str_eq};

verus! {

/// JSON whitespace.
pub open spec fn is_json_space(c: char) -> bool {
    c == ' ' || c == '\t' || c == '\n' || c == '\r'
}

/// The position after the whitespace that starts at `p`.
pub(crate) fn skip_ws(t: &Vec<char>, p: usize) -> (q: usize)
    requires
        p <= t@.len(),
    ensures
        p <= q <= t@.len(),
        q < t@.len() ==> !is_json_space(t@[q as int]),
        forall|i: int| p <= i < q ==> is_json_space(#[trigger] t@[i]),
        t@.len() <= usize::MAX,
{
    let n = t.len();
    let mut q = p;
    while q < t.len() && (t[q] == ' ' || t[q] == '\t' || t[q] == '\n' || t[q] == '\r')
        invariant
            p <= q <= t@.len(),
            forall|i: int| p <= i < q ==> is_json_space(#[trigger] t@[i]),
        decreases t.len() - q,
    {
        q += 1;
    }
    q
}

/// Whether the text holds the character `c` at `p`.
fn char_at(t: &Vec<char>, p: usize, c: char) -> (b: bool)
    ensures
        b == (p < t@.len() && t@[p as int] == c),
        t@.len() <= usize::MAX,
{
    let n = t.len();
    p < n && t[p] == c
}

/// The position after the digits that start at `p`.
fn skip_digits(t: &Vec<char>, p: usize) -> (q: usize)
    requires
        p <= t@.len(),
    ensures
        p <= q <= t@.len(),
{
    let mut q = p;
    while q < t.len() && '0' <= t[q] && t[q] <= '9'
        invariant
            p <= q <= t@.len(),
        decreases t.len() - q,
    {
        q += 1;
    }
    q
}

/// The end of the JSON number at `p`: an optional minus, digits, an optional
/// fraction and an optional exponent.
fn skip_number(t: &Vec<char>, p: usize) -> (r: Option<usize>)
    requires
        p <= t@.len(),
    ensures
        r matches Some(e) ==> p < e <= t@.len(),
{
    let mut q = p;
    if char_at(t, q, '-') {
        q += 1;
    }
    let d = skip_digits(t, q);
    if d == q {
        return None;
    }
    q = d;
    if char_at(t, q, '.') {
        let d2 = skip_digits(t, q + 1);
        if d2 == q + 1 {
            return None;
        }
        q = d2;
    }
    if char_at(t, q, 'e') || char_at(t, q, 'E') {
        let mut s = q + 1;
        if char_at(t, s, '+') || char_at(t, s, '-') {
            s += 1;
        }
        let d3 = skip_digits(t, s);
        if d3 == s {
            return None;
        }
        q = d3;
    }
    Some(q)
}

/// The end of the JSON value that starts at `p`, after any whitespace.
pub(crate) fn skip_value(t: &Vec<char>, p: usize) -> (r: Option<usize>)
    requires
        p <= t@.len(),
    ensures
        r matches Some(e) ==> p < e <= t@.len(),
    decreases t@.len() - p,
{
    let q = skip_ws(t, p);
    if q >= t.len() {
        return None;
    }
    let c = t[q];
    if c == '"' {
        return match parse_string_at(t, q) {
            Some((_, e)) => Some(e),
            None => None,
        };
    }
    proof {
        reveal_strlit("true");
        reveal_strlit("false");
        reveal_strlit("null");
    }
    if c == 't' {
        return expect(t, q, "true");
    }
    if c == 'f' {
        return expect(t, q, "false");
    }
    if c == 'n' {
        return expect(t, q, "null");
    }
    if c != '{' && c != '[' {
        return skip_number(t, q);
    }
    let close = if c == '{' {
        '}'
    } else {
        ']'
    };
    let first = skip_ws(t, q + 1);
    if char_at(t, first, close) {
        return Some(first + 1);
    }
    let mut pos = q + 1;
    loop
        invariant
            p < pos <= t@.len(),
        decreases t@.len() - pos,
    {
        if c == '{' {
            let (_, e) = match key_at(t, pos) {
                Some(x) => x,
                None => return None,
            };
            pos = e;
        }
        let e = match skip_value(t, pos) {
            Some(e) => e,
            None => return None,
        };
        let j = skip_ws(t, e);
        if char_at(t, j, ',') {
            pos = j + 1;
        } else if char_at(t, j, close) {
            return Some(j + 1);
        } else {
            return None;
        }
    }
}

/// A member's name and the colon after it, from `p`; returns the name and the
/// position after the colon.
pub(crate) fn key_at(t: &Vec<char>, p: usize) -> (r: Option<(String, usize)>)
    requires
        p <= t@.len(),
    ensures
        r matches Some((_, e)) ==> p < e <= t@.len(),
{
    let q = skip_ws(t, p);
    let (k, e) = match parse_string_at(t, q) {
        Some(x) => x,
        None => return None,
    };
    let j = skip_ws(t, e);
    if char_at(t, j, ':') {
        Some((k, j + 1))
    } else {
        None
    }
}

/// A string value from `p`, after any whitespace.
fn string_value(t: &Vec<char>, p: usize) -> (r: Option<(String, usize)>)
    requires
        p <= t@.len(),
    ensures
        r matches Some((_, e)) ==> p < e <= t@.len(),
{
    let q = skip_ws(t, p);
    parse_string_at(t, q)
}

/// Whether the value at `p` is `null`; returns the position after it.
fn null_value(t: &Vec<char>, p: usize) -> (r: Option<usize>)
    requires
        p <= t@.len(),
    ensures
        r matches Some(e) ==> p < e <= t@.len(),
{
    let q = skip_ws(t, p);
    proof {
        reveal_strlit("null");
    }
    expect(t, q, "null")
}

/// What follows inside an object at `p`: `Some((true, q))` where a member starts
/// at `q`, `Some((false, e))` where the object closes and `e` is past the brace.
fn next_member(t: &Vec<char>, p: usize, first: bool) -> (r: Option<(bool, usize)>)
    requires
        p <= t@.len(),
    ensures
        r matches Some((more, e)) ==> p <= e <= t@.len() && (!more ==> p < e),
{
    let q = skip_ws(t, p);
    if char_at(t, q, '}') {
        return Some((false, q + 1));
    }
    if first {
        Some((true, q))
    } else if char_at(t, q, ',') {
        Some((true, q + 1))
    } else {
        None
    }
}

/// The opening brace of an object at `p`, after any whitespace.
fn open_object(t: &Vec<char>, p: usize) -> (r: Option<usize>)
    requires
        p <= t@.len(),
    ensures
        r matches Some(e) ==> p < e <= t@.len(),
{
    let q = skip_ws(t, p);
    if char_at(t, q, '{') {
        Some(q + 1)
    } else {
        None
    }
}

/// Encryption metadata `{"key_hash": ..., "iv": ...}` from `p`.
fn lenient_enc(t: &Vec<char>, p: usize) -> (r: Option<(EncryptionInfo, usize)>)
    requires
        p <= t@.len(),
    ensures
        r matches Some((_, e)) ==> p < e <= t@.len(),
{
    let mut pos = match open_object(t, p) {
        Some(q) => q,
        None => return None,
    };
    let mut first = true;
    let mut key_hash: Option<String> = None;
    let mut iv: Option<String> = None;
    loop
        invariant
            p < pos <= t@.len(),
        decreases t@.len() - pos,
    {
        let k0 = match next_member(t, pos, first) {
            None => return None,
            Some((false, e)) => {
                return match (key_hash, iv) {
                    (Some(a), Some(b)) => Some((EncryptionInfo { key_hash: a, iv: b }, e)),
                    _ => None,
                };
            },
            Some((true, k0)) => k0,
        };
        let (name, v0) = match key_at(t, k0) {
            Some(x) => x,
            None => return None,
        };
        if str_eq(name.as_str(), "key_hash") {
            if key_hash.is_some() {
                return None;
            }
            let (s, e) = match string_value(t, v0) {
                Some(x) => x,
                None => return None,
            };
            key_hash = Some(s);
            pos = e;
        } else if str_eq(name.as_str(), "iv") {
            if iv.is_some() {
                return None;
            }
            let (s, e) = match string_value(t, v0) {
                Some(x) => x,
                None => return None,
            };
            iv = Some(s);
            pos = e;
        } else {
            pos = match skip_value(t, v0) {
                Some(e) => e,
                None => return None,
            };
        }
        first = false;
    }
}

/// A link `{"raw_cid": ..., "encryption_info": ...}` from `p`, as a lazy header.
fn lenient_link(t: &Vec<char>, p: usize) -> (r: Option<(RadixHeader<String>, usize)>)
    requires
        p <= t@.len(),
    ensures
        r matches Some((h, e)) ==> p < e <= t@.len() && h.node is None,
{
    let mut pos = match open_object(t, p) {
        Some(q) => q,
        None => return None,
    };
    let mut first = true;
    let mut raw_cid: Option<String> = None;
    let mut enc: Option<Option<EncryptionInfo>> = None;
    loop
        invariant
            p < pos <= t@.len(),
        decreases t@.len() - pos,
    {
        let k0 = match next_member(t, pos, first) {
            None => return None,
            Some((false, e)) => {
                return match raw_cid {
                    Some(c) => {
                        let info = match enc {
                            Some(x) => x,
                            None => None,
                        };
                        Some((RadixHeader { raw_cid: c, node: None, encryption_info: info }, e))
                    },
                    None => None,
                };
            },
            Some((true, k0)) => k0,
        };
        let (name, v0) = match key_at(t, k0) {
            Some(x) => x,
            None => return None,
        };
        if str_eq(name.as_str(), "raw_cid") {
            if raw_cid.is_some() {
                return None;
            }
            let (s, e) = match string_value(t, v0) {
                Some(x) => x,
                None => return None,
            };
            raw_cid = Some(s);
            pos = e;
        } else if str_eq(name.as_str(), "encryption_info") {
            if enc.is_some() {
                return None;
            }
            match null_value(t, v0) {
                Some(e) => {
                    enc = Some(None);
                    pos = e;
                },
                None => {
                    let (info, e) = match lenient_enc(t, v0) {
                        Some(x) => x,
                        None => return None,
                    };
                    enc = Some(Some(info));
                    pos = e;
                },
            }
        } else {
            pos = match skip_value(t, v0) {
                Some(e) => e,
                None => return None,
            };
        }
        first = false;
    }
}

/// An entry `{"key": ..., "value": ...}` from `p`.
fn lenient_entry(t: &Vec<char>, p: usize) -> (r: Option<(String, RadixHeader<String>, usize)>)
    requires
        p <= t@.len(),
    ensures
        r matches Some((_, h, e)) ==> p < e <= t@.len() && h.node is None,
{
    let mut pos = match open_object(t, p) {
        Some(q) => q,
        None => return None,
    };
    let mut first = true;
    let mut key: Option<String> = None;
    let mut link: Option<RadixHeader<String>> = None;
    loop
        invariant
            p < pos <= t@.len(),
            link matches Some(h) ==> h.node is None,
        decreases t@.len() - pos,
    {
        let k0 = match next_member(t, pos, first) {
            None => return None,
            Some((false, e)) => {
                return match (key, link) {
                    (Some(k), Some(h)) => Some((k, h, e)),
                    _ => None,
                };
            },
            Some((true, k0)) => k0,
        };
        let (name, v0) = match key_at(t, k0) {
            Some(x) => x,
            None => return None,
        };
        if str_eq(name.as_str(), "key") {
            if key.is_some() {
                return None;
            }
            let (s, e) = match string_value(t, v0) {
                Some(x) => x,
                None => return None,
            };
            key = Some(s);
            pos = e;
        } else if str_eq(name.as_str(), "value") {
            if link.is_some() {
                return None;
            }
            let (h, e) = match lenient_link(t, v0) {
                Some(x) => x,
                None => return None,
            };
            link = Some(h);
            pos = e;
        } else {
            pos = match skip_value(t, v0) {
                Some(e) => e,
                None => return None,
            };
        }
        first = false;
    }
}

/// An array of entries from `p`, as lazy links sorted by key, with the entries
/// read (key and link, in the order listed): for each first character the links
/// hold the link of the last listed entry whose key starts with it, and nothing
/// else; an entry with an empty key gives no link.
fn lenient_entries(t: &Vec<char>, p: usize) -> (r: Option<
    (Vec<(char, RadixHeader<String>)>, usize, Ghost<Seq<(Seq<char>, TrieLink)>>),
>)
    requires
        p <= t@.len(),
    ensures
        r matches Some((v, e, es)) ==> p < e <= t@.len() && sorted_links(links_view(v@)) && (forall|j: int|
            0 <= j < v@.len() ==> (#[trigger] v@[j]).1.node is None) && (forall|j: int|
            0 <= j < es@.len() ==> (#[trigger] es@[j]).1.node is None) && forall|c: char|
            #[trigger] child_lookup(links_view(v@), c) == last_entry_link(es@, c),
{
    let mut out: Vec<(char, RadixHeader<String>)> = Vec::new();
    let ghost mut es: Seq<(Seq<char>, TrieLink)> = Seq::empty();
    proof {
        lemma_links_view(out@);
        assert forall|c: char| #[trigger] child_lookup(links_view(out@), c) == last_entry_link(es, c) by {
            lemma_find_child(links_view(out@), c);
        }
    }
    let q = skip_ws(t, p);
    if !char_at(t, q, '[') {
        return None;
    }
    let first = skip_ws(t, q + 1);
    if char_at(t, first, ']') {
        return Some((out, first + 1, Ghost(es)));
    }
    let mut pos = q + 1;
    loop
        invariant
            p < pos <= t@.len(),
            sorted_links(links_view(out@)),
            forall|j: int| 0 <= j < out@.len() ==> (#[trigger] out@[j]).1.node is None,
            forall|j: int| 0 <= j < es.len() ==> (#[trigger] es[j]).1.node is None,
            forall|c: char| #[trigger] child_lookup(links_view(out@), c) == last_entry_link(es, c),
        decreases t@.len() - pos,
    {
        let (key, h, e) = match lenient_entry(t, pos) {
            Some(x) => x,
            None => return None,
        };
        let kc = str_chars(key.as_str());
        let ghost before = out@;
        let ghost es0 = es;
        if kc.len() > 0 {
            add_link(&mut out, kc[0], h);
        }
        proof {
            es = es.push((key@, h@));
            assert(es.drop_last() =~= es0);
            assert forall|c: char| #[trigger] child_lookup(links_view(out@), c) == last_entry_link(es, c) by {
                if kc@.len() == 0 {
                    assert(out@ == before);
                }
            }
            assert forall|j: int| 0 <= j < es.len() implies (#[trigger] es[j]).1.node is None by {
                if j < es0.len() {
                    assert(es[j] == es0[j]);
                }
            }
        }
        let j = skip_ws(t, e);
        if char_at(t, j, ',') {
            pos = j + 1;
        } else if char_at(t, j, ']') {
            return Some((out, j + 1, Ghost(es)));
        } else {
            return None;
        }
    }
}

/// Only whitespace is left after `p`.
fn at_end(t: &Vec<char>, p: usize) -> (b: bool)
    requires
        p <= t@.len(),
{
    skip_ws(t, p) == t.len()
}

/// A dictionary `{"children": [...], "count": N}` in any layout.
pub(crate) fn lenient_dict(t: &Vec<char>) -> (r: Option<(Vec<(char, RadixHeader<String>)>, usize)>)
    ensures
        r matches Some((v, _)) ==> sorted_links(links_view(v@)) && forall|j: int|
            0 <= j < v@.len() ==> (#[trigger] v@[j]).1.node is None,
{
    let mut pos = match open_object(t, 0) {
        Some(q) => q,
        None => return None,
    };
    let mut first = true;
    let mut children: Option<Vec<(char, RadixHeader<String>)>> = None;
    let mut count: Option<usize> = None;
    loop
        invariant
            0 < pos <= t@.len(),
            children matches Some(v) ==> sorted_links(links_view(v@)) && forall|j: int|
                0 <= j < v@.len() ==> (#[trigger] v@[j]).1.node is None,
        decreases t@.len() - pos,
    {
        let k0 = match next_member(t, pos, first) {
            None => return None,
            Some((false, e)) => {
                if !at_end(t, e) {
                    return None;
                }
                return match (children, count) {
                    (Some(v), Some(n)) => Some((v, n)),
                    _ => None,
                };
            },
            Some((true, k0)) => k0,
        };
        let (name, v0) = match key_at(t, k0) {
            Some(x) => x,
            None => return None,
        };
        if str_eq(name.as_str(), "children") {
            if children.is_some() {
                return None;
            }
            let (v, e, _) = match lenient_entries(t, v0) {
                Some(x) => x,
                None => return None,
            };
            children = Some(v);
            pos = e;
        } else if str_eq(name.as_str(), "count") {
            if count.is_some() {
                return None;
            }
            let s = skip_ws(t, v0);
            let (n, e) = match parse_count(t, s) {
                Some(x) => x,
                None => return None,
            };
            count = Some(n);
            pos = e;
        } else {
            pos = match skip_value(t, v0) {
                Some(e) => e,
                None => return None,
            };
        }
        first = false;
    }
}

/// A node `{"prefix": ..., "value": ..., "children": [...]}` in any layout.
pub(crate) fn lenient_node(t: &Vec<char>) -> (r: Option<(String, Option<String>, Vec<(char, RadixHeader<String>)>)>)
    ensures
        r matches Some((_, _, v)) ==> sorted_links(links_view(v@)) && forall|j: int|
            0 <= j < v@.len() ==> (#[trigger] v@[j]).1.node is None,
{
    let mut pos = match open_object(t, 0) {
        Some(q) => q,
        None => return None,
    };
    let mut first = true;
    let mut prefix: Option<String> = None;
    let mut value: Option<Option<String>> = None;
    let mut children: Option<Vec<(char, RadixHeader<String>)>> = None;
    loop
        invariant
            0 < pos <= t@.len(),
            children matches Some(v) ==> sorted_links(links_view(v@)) && forall|j: int|
                0 <= j < v@.len() ==> (#[trigger] v@[j]).1.node is None,
        decreases t@.len() - pos,
    {
        let k0 = match next_member(t, pos, first) {
            None => return None,
            Some((false, e)) => {
                if !at_end(t, e) {
                    return None;
                }
                return match (prefix, children) {
                    (Some(pf), Some(v)) => {
                        let val = match value {
                            Some(x) => x,
                            None => None,
                        };
                        Some((pf, val, v))
                    },
                    _ => None,
                };
            },
            Some((true, k0)) => k0,
        };
        let (name, v0) = match key_at(t, k0) {
            Some(x) => x,
            None => return None,
        };
        if str_eq(name.as_str(), "prefix") {
            if prefix.is_some() {
                return None;
            }
            let (s, e) = match string_value(t, v0) {
                Some(x) => x,
                None => return None,
            };
            prefix = Some(s);
            pos = e;
        } else if str_eq(name.as_str(), "value") {
            if value.is_some() {
                return None;
            }
            match null_value(t, v0) {
                Some(e) => {
                    value = Some(None);
                    pos = e;
                },
                None => {
                    let (s, e) = match string_value(t, v0) {
                        Some(x) => x,
                        None => return None,
                    };
                    value = Some(Some(s));
                    pos = e;
                },
            }
        } else if str_eq(name.as_str(), "children") {
            if children.is_some() {
                return None;
            }
            let (v, e, _) = match lenient_entries(t, v0) {
                Some(x) => x,
                None => return None,
            };
            children = Some(v);
            pos = e;
        } else {
            pos = match skip_value(t, v0) {
                Some(e) => e,
                None => return None,
            };
        }
        first = false;
    }
}

} // verus!
