use vstd::prelude::*;
use crate::cid_utils::cid_text;
use vstd::utf8::encode_utf8;
use crate::codec::{json_quote, json_string};
use crate::encryption::EncryptionInfo;
use crate::error::CashewError;
use crate::merkle::radix_header::RadixHeader;

verus! {

// ---------------------------------------------------------------------------
// Mathematical model of a compressed radix trie.
// ---------------------------------------------------------------------------

/// Model of a trie node: its compressed edge label, its optional value and its
/// child links, each keyed by the first character of the child's label.
pub struct TrieNode {
    pub prefix: Seq<char>,
    pub value: Option<Seq<char>>,
    pub children: Seq<(char, TrieLink)>,
}

/// Model of a link to a child node: its CID text, the node when it is loaded,
/// and the encryption metadata (key hash, IV) when present.
pub struct TrieLink {
    pub cid: Seq<char>,
    pub node: Option<Box<TrieNode>>,
    pub encryption: Option<(Seq<char>, Seq<char>)>,
}

/// Index of the child link keyed by `c`, searching from the back.
pub open spec fn find_child(s: Seq<(char, TrieLink)>, c: char) -> Option<int>
    decreases s.len(),
{
    if s.len() == 0 {
        None
    } else if s.last().0 == c {
        Some(s.len() - 1)
    } else {
        find_child(s.drop_last(), c)
    }
}

pub proof fn lemma_find_child(s: Seq<(char, TrieLink)>, c: char)
    ensures
        find_child(s, c) matches Some(i) ==> 0 <= i < s.len() && s[i].0 == c,
        find_child(s, c) is None ==> forall|j: int| 0 <= j < s.len() ==> s[j].0 != c,
    decreases s.len(),
{
    if s.len() > 0 {
        lemma_find_child(s.drop_last(), c);
        assert forall|j: int| 0 <= j < s.len() - 1 implies s.drop_last()[j] == s[j] by {}
    }
}

/// Child links are ordered by strictly increasing character.
pub open spec fn sorted_links(s: Seq<(char, TrieLink)>) -> bool {
    forall|i: int, j: int| 0 <= i < j < s.len() ==> (s[i].0 as int) < (s[j].0 as int)
}

pub proof fn lemma_find_child_sorted(s: Seq<(char, TrieLink)>, c: char, i: int)
    requires
        sorted_links(s),
        0 <= i < s.len(),
        s[i].0 == c,
    ensures
        find_child(s, c) == Some(i),
{
    lemma_find_child(s, c);
    match find_child(s, c) {
        Some(j) => {
            if j != i {
                if j < i {
                    assert((s[j].0 as int) < (s[i].0 as int));
                } else {
                    assert((s[i].0 as int) < (s[j].0 as int));
                }
            }
        },
        None => {},
    }
}

/// The value stored under `k` in the trie rooted at `n`; keys include `n.prefix`.
pub open spec fn node_get(n: TrieNode, k: Seq<char>) -> Option<Seq<char>>
    decreases n,
{
    let p = n.prefix;
    if k.len() < p.len() || k.take(p.len() as int) != p {
        None
    } else {
        let rest = k.skip(p.len() as int);
        if rest.len() == 0 {
            n.value
        } else {
            match find_child(n.children, rest[0]) {
                Some(i) => {
                    proof {
                        lemma_find_child(n.children, rest[0]);
                    }
                    if 0 <= i < n.children.len() {
                        match n.children[i].1.node {
                            Some(c) => {
                                proof {
                                    assert(decreases_to!(n.children => n.children[i]));
                                }
                                node_get(*c, rest)
                            },
                            None => None,
                        }
                    } else {
                        None
                    }
                },
                None => None,
            }
        }
    }
}

/// The key-value pairs of the loaded part of the trie, in depth-first order
/// (a node's own value first, then its children in link order).
pub open spec fn node_entries(n: TrieNode) -> Seq<(Seq<char>, Seq<char>)>
    decreases n, n.children.len() + 1,
{
    let own = match n.value {
        Some(v) => seq![(n.prefix, v)],
        None => Seq::empty(),
    };
    own + links_entries(n, n.children.len() as int).map_values(
        |e: (Seq<char>, Seq<char>)| (n.prefix + e.0, e.1),
    )
}

/// Entries of the first `i` child links of `n`, keys relative to the children.
pub open spec fn links_entries(n: TrieNode, i: int) -> Seq<(Seq<char>, Seq<char>)>
    decreases n, i,
{
    if i <= 0 || i > n.children.len() {
        Seq::empty()
    } else {
        proof {
            assert(decreases_to!(n.children => n.children[i - 1]));
        }
        links_entries(n, i - 1) + match n.children[i - 1].1.node {
            Some(c) => node_entries(*c),
            None => Seq::empty(),
        }
    }
}

/// A node of a compressed trie holds a value or branches into at least two children.
pub open spec fn node_compact(n: TrieNode) -> bool {
    n.value is Some || n.children.len() >= 2
}

/// A fully loaded, compressed, well-formed trie whose links carry the CIDs of
/// their nodes.
pub open spec fn trie_wf(n: TrieNode) -> bool
    decreases n, n.children.len() + 1,
{
    &&& sorted_links(n.children)
    &&& node_compact(n)
    &&& links_wf(n, n.children.len() as int)
}

/// Local conditions on a link under character `c`.
pub open spec fn link_ok(c: char, l: TrieLink) -> bool {
    match l.node {
        Some(m) => {
            &&& m.prefix.len() > 0
            &&& m.prefix[0] == c
            &&& l.cid == node_cid(*m)
        },
        None => false,
    }
}

pub open spec fn links_wf(n: TrieNode, i: int) -> bool
    decreases n, i,
{
    if i <= 0 || i > n.children.len() {
        true
    } else {
        proof {
            assert(decreases_to!(n.children => n.children[i - 1]));
        }
        &&& links_wf(n, i - 1)
        &&& link_ok(n.children[i - 1].0, n.children[i - 1].1)
        &&& match n.children[i - 1].1.node {
            Some(c) => trie_wf(*c),
            None => false,
        }
    }
}

/// The child node behind link `i` (meaningful when the link is loaded).
pub open spec fn child_at(n: TrieNode, i: int) -> TrieNode {
    *n.children[i].1.node.unwrap()
}

pub proof fn lemma_links_wf(n: TrieNode, i: int)
    requires
        0 <= i <= n.children.len(),
    ensures
        links_wf(n, i) <==> forall|j: int|
            0 <= j < i ==> #[trigger] link_ok(n.children[j].0, n.children[j].1) && trie_wf(
                child_at(n, j),
            ),
    decreases i,
{
    if i > 0 {
        lemma_links_wf(n, i - 1);
        let l = n.children[i - 1].1;
        if l.node is Some {
            assert(trie_wf(child_at(n, i - 1)) == (match l.node {
                Some(c) => trie_wf(*c),
                None => false,
            }));
        }
        if forall|j: int|
            0 <= j < i ==> #[trigger] link_ok(n.children[j].0, n.children[j].1) && trie_wf(
                child_at(n, j),
            ) {
            assert(link_ok(n.children[i - 1].0, n.children[i - 1].1));
        }
    }
}

pub proof fn lemma_trie_wf(n: TrieNode)
    ensures
        trie_wf(n) <==> sorted_links(n.children) && node_compact(n) && forall|j: int|
            0 <= j < n.children.len() ==> #[trigger] link_ok(n.children[j].0, n.children[j].1)
                && trie_wf(child_at(n, j)),
{
    lemma_links_wf(n, n.children.len() as int);
    assert(trie_wf(n) == (sorted_links(n.children) && node_compact(n) && links_wf(n, n.children.len() as int)));
}

// ---------------------------------------------------------------------------
// Deterministic JSON encoding of a node.
// ---------------------------------------------------------------------------

/// JSON object for encryption metadata.
pub open spec fn encryption_json(e: (Seq<char>, Seq<char>)) -> Seq<char> {
    "{\"key_hash\":"@ + json_quote(e.0) + ",\"iv\":"@ + json_quote(e.1) + "}"@
}

/// JSON object for a link: only the CID and the encryption metadata are persisted.
pub open spec fn link_json(l: TrieLink) -> Seq<char> {
    "{\"raw_cid\":"@ + json_quote(l.cid) + match l.encryption {
        Some(e) => ",\"encryption_info\":"@ + encryption_json(e),
        None => Seq::empty(),
    } + "}"@
}

/// JSON object for one sorted entry `{"key": ..., "value": ...}`.
pub open spec fn entry_json(e: (char, TrieLink)) -> Seq<char> {
    "{\"key\":"@ + json_quote(seq![e.0]) + ",\"value\":"@ + link_json(e.1) + "}"@
}

/// Comma-separated entries.
pub open spec fn entries_json(s: Seq<(char, TrieLink)>) -> Seq<char>
    decreases s.len(),
{
    if s.len() == 0 {
        Seq::empty()
    } else if s.len() == 1 {
        entry_json(s[0])
    } else {
        entries_json(s.drop_last()) + ","@ + entry_json(s.last())
    }
}

/// JSON text of a node: prefix, the value when present, and the sorted child entries.
pub open spec fn node_json(n: TrieNode) -> Seq<char> {
    "{\"prefix\":"@ + json_quote(n.prefix) + match n.value {
        Some(v) => ",\"value\":"@ + json_quote(v),
        None => Seq::empty(),
    } + ",\"children\":["@ + entries_json(n.children) + "]}"@
}

/// The serialized bytes of a node.
pub open spec fn node_bytes(n: TrieNode) -> Seq<u8> {
    encode_utf8(node_json(n))
}

/// The CID text of a node.
pub open spec fn node_cid(n: TrieNode) -> Seq<char> {
    cid_text(node_bytes(n))
}

// ---------------------------------------------------------------------------
// Executable node.
// ---------------------------------------------------------------------------

/// A sorted entry used for deterministic serialization.
#[derive(Debug)]
pub struct SortedEntry<V> {
    pub key: String,
    pub value: V,
}

/// Internal node of a compressed radix trie in the Merkle tree.
///
/// Each node stores a compressed `prefix` (edge label), an optional `value`,
/// and child links ordered by the first character of the child's prefix.
#[derive(Debug)]
pub struct RadixNode<V> {
    pub prefix: String,
    pub value: Option<V>,
    pub children: Vec<(char, RadixHeader<V>)>,
}

pub open spec fn opt_view(v: Option<String>) -> Option<Seq<char>> {
    match v {
        Some(s) => Some(s@),
        None => None,
    }
}

pub open spec fn opt_enc_view(e: Option<EncryptionInfo>) -> Option<(Seq<char>, Seq<char>)> {
    match e {
        Some(x) => Some(x@),
        None => None,
    }
}

pub open spec fn node_model(n: RadixNode<String>) -> TrieNode
    decreases n, n.children@.len() + 1,
{
    TrieNode {
        prefix: n.prefix@,
        value: opt_view(n.value),
        children: links_model(n.children@, n.children@.len() as int),
    }
}

/// Models of the first `i` links of `s`.
pub open spec fn links_model(s: Seq<(char, RadixHeader<String>)>, i: int) -> Seq<(char, TrieLink)>
    decreases s, i,
{
    if i <= 0 || i > s.len() {
        Seq::empty()
    } else {
        proof {
            assert(decreases_to!(s => s[i - 1]));
        }
        links_model(s, i - 1).push((s[i - 1].0, link_model(s[i - 1].1)))
    }
}

pub open spec fn link_model(h: RadixHeader<String>) -> TrieLink
    decreases h, 0int,
{
    TrieLink {
        cid: h.raw_cid@,
        node: match h.node {
            Some(b) => Some(Box::new(node_model(*b))),
            None => None,
        },
        encryption: opt_enc_view(h.encryption_info),
    }
}

/// The models of a sequence of exec links.
pub open spec fn links_view(s: Seq<(char, RadixHeader<String>)>) -> Seq<(char, TrieLink)> {
    links_model(s, s.len() as int)
}

pub proof fn lemma_links_model(s: Seq<(char, RadixHeader<String>)>, i: int)
    requires
        0 <= i <= s.len(),
    ensures
        links_model(s, i).len() == i,
        forall|j: int|
            0 <= j < i ==> #[trigger] links_model(s, i)[j] == (s[j].0, link_model(s[j].1)),
    decreases i,
{
    if i > 0 {
        lemma_links_model(s, i - 1);
    }
}

pub proof fn lemma_links_view(s: Seq<(char, RadixHeader<String>)>)
    ensures
        links_view(s).len() == s.len(),
        forall|j: int|
            0 <= j < s.len() ==> #[trigger] links_view(s)[j] == (s[j].0, link_model(s[j].1)),
{
    lemma_links_model(s, s.len() as int);
}

/// Two exec link sequences with the same models have the same view.
pub proof fn lemma_links_view_ext(a: Seq<(char, RadixHeader<String>)>, b: Seq<(char, RadixHeader<String>)>)
    requires
        a.len() == b.len(),
        forall|j: int| 0 <= j < a.len() ==> a[j].0 == b[j].0 && link_model(a[j].1) == link_model(b[j].1),
    ensures
        links_view(a) == links_view(b),
{
    lemma_links_view(a);
    lemma_links_view(b);
    assert(links_view(a) =~= links_view(b));
}

impl View for RadixNode<String> {
    type V = TrieNode;

    open spec fn view(&self) -> TrieNode {
        node_model(*self)
    }
}

impl View for RadixHeader<String> {
    type V = TrieLink;

    open spec fn view(&self) -> TrieLink {
        link_model(*self)
    }
}

pub proof fn lemma_node_view(n: RadixNode<String>)
    ensures
        n@.prefix == n.prefix@,
        n@.value == opt_view(n.value),
        n@.children == links_view(n.children@),
        n@.children.len() == n.children@.len(),
        forall|j: int|
            0 <= j < n.children@.len() ==> #[trigger] n@.children[j] == (
                n.children@[j].0,
                n.children@[j].1@,
            ),
{
    lemma_links_view(n.children@);
}

pub(crate) fn clone_opt_string(v: &Option<String>) -> (r: Option<String>)
    ensures
        opt_view(r) == opt_view(*v),
{
    match v {
        Some(s) => Some(s.clone()),
        None => None,
    }
}

pub(crate) fn clone_opt_enc(v: &Option<EncryptionInfo>) -> (r: Option<EncryptionInfo>)
    ensures
        opt_enc_view(r) == opt_enc_view(*v),
{
    match v {
        Some(e) => Some(e.clone()),
        None => None,
    }
}

/// Deep copy of a node.
pub(crate) fn clone_node(n: &RadixNode<String>) -> (r: RadixNode<String>)
    ensures
        r@ == n@,
    decreases n, 1int,
{
    let children = clone_links(&n.children);
    RadixNode { prefix: n.prefix.clone(), value: clone_opt_string(&n.value), children }
}

/// Deep copy of a link.
pub(crate) fn clone_link(h: &RadixHeader<String>) -> (r: RadixHeader<String>)
    ensures
        r@ == h@,
    decreases h, 2int,
{
    let node = match &h.node {
        Some(b) => {
            let m = clone_node(&**b);
            Some(Box::new(m))
        },
        None => None,
    };
    RadixHeader {
        raw_cid: h.raw_cid.clone(),
        node,
        encryption_info: clone_opt_enc(&h.encryption_info),
    }
}

/// Deep copy of a sequence of links.
pub(crate) fn clone_links(v: &Vec<(char, RadixHeader<String>)>) -> (r: Vec<(char, RadixHeader<String>)>)
    ensures
        r@.len() == v@.len(),
        forall|j: int| #![trigger r@[j]] 0 <= j < v@.len() ==> r@[j].0 == v@[j].0 && link_model(r@[j].1) == link_model(v@[j].1),
        links_view(r@) == links_view(v@),
    decreases v, 0int,
{
    let mut r: Vec<(char, RadixHeader<String>)> = Vec::new();
    let mut i: usize = 0;
    while i < v.len()
        invariant
            i <= v.len(),
            r@.len() == i,
            forall|j: int| #![trigger r@[j]] 0 <= j < i ==> r@[j].0 == v@[j].0 && link_model(r@[j].1) == link_model(v@[j].1),
        decreases v.len() - i,
    {
        proof {
            assert(decreases_to!(v => v@));
            assert(decreases_to!(v@ => v@[i as int]));
        }
        let h = clone_link(&v[i].1);
        r.push((v[i].0, h));
        i += 1;
    }
    proof {
        lemma_links_view_ext(r@, v@);
    }
    r
}

impl Clone for RadixNode<String> {
    fn clone(&self) -> (r: Self)
        ensures
            r@ == self@,
    {
        clone_node(self)
    }
}

/// JSON text of encryption metadata.
pub(crate) fn encryption_json_text(e: &EncryptionInfo) -> (s: String)
    ensures
        s@ == encryption_json(e@),
{
    let mut s = String::new();
    s.append("{\"key_hash\":");
    s.append(json_string(e.key_hash.as_str()).as_str());
    s.append(",\"iv\":");
    s.append(json_string(e.iv.as_str()).as_str());
    s.append("}");
    s
}

/// JSON text of a link.
pub(crate) fn link_json_text(h: &RadixHeader<String>) -> (s: String)
    ensures
        s@ == link_json(h@),
{
    let mut s = String::new();
    s.append("{\"raw_cid\":");
    s.append(json_string(h.raw_cid.as_str()).as_str());
    match &h.encryption_info {
        Some(e) => {
            s.append(",\"encryption_info\":");
            s.append(encryption_json_text(e).as_str());
        },
        None => {},
    }
    s.append("}");
    assert(s@ == link_json(h@));
    s
}

/// JSON text of the sorted entries of a sequence of links.
pub(crate) fn entries_json_text(v: &Vec<(char, RadixHeader<String>)>) -> (s: String)
    ensures
        s@ == entries_json(links_view(v@)),
{
    let mut s = String::new();
    let mut i: usize = 0;
    proof {
        lemma_links_view(v@);
    }
    while i < v.len()
        invariant
            i <= v.len(),
            links_view(v@).len() == v@.len(),
            forall|j: int|
                0 <= j < v@.len() ==> #[trigger] links_view(v@)[j] == (v@[j].0, link_model(v@[j].1)),
            s@ == entries_json(links_view(v@).take(i as int)),
        decreases v.len() - i,
    {
        let ghost prev = links_view(v@).take(i as int);
        if i > 0 {
            s.append(",");
        }
        let mut key = String::new();
        crate::text::push_char(&mut key, v[i].0);
        s.append("{\"key\":");
        s.append(json_string(key.as_str()).as_str());
        s.append(",\"value\":");
        s.append(link_json_text(&v[i].1).as_str());
        s.append("}");
        proof {
            let cur = links_view(v@).take(i + 1);
            assert(cur.drop_last() =~= prev);
            assert(cur.last() == links_view(v@)[i as int]);
            assert(key@ =~= seq![v@[i as int].0]);
        }
        i += 1;
    }
    assert(links_view(v@).take(v@.len() as int) =~= links_view(v@));
    s
}

/// JSON text of a node.
pub(crate) fn node_json_text(n: &RadixNode<String>) -> (s: String)
    ensures
        s@ == node_json(n@),
{
    proof {
        lemma_node_view(*n);
    }
    let mut s = String::new();
    s.append("{\"prefix\":");
    s.append(json_string(n.prefix.as_str()).as_str());
    match &n.value {
        Some(v) => {
            s.append(",\"value\":");
            s.append(json_string(v.as_str()).as_str());
        },
        None => {},
    }
    s.append(",\"children\":[");
    s.append(entries_json_text(&n.children).as_str());
    s.append("]}");
    s
}

impl RadixNode<String> {
    pub fn new(prefix: String, value: Option<String>, children: Vec<(char, RadixHeader<String>)>) -> (r: Self)
        ensures
            r.prefix == prefix,
            r.value == value,
            r.children == children,
    {
        RadixNode { prefix, value, children }
    }

    pub fn empty() -> (r: Self)
        ensures
            r@ == (TrieNode { prefix: Seq::empty(), value: None, children: Seq::empty() }),
    {
        let r = Self::new(String::new(), None, Vec::new());
        proof {
            lemma_node_view(r);
            assert(r@.children =~= Seq::<(char, TrieLink)>::empty());
        }
        r
    }

    pub fn leaf(prefix: String, value: String) -> (r: Self)
        ensures
            r@ == (TrieNode { prefix: prefix@, value: Some(value@), children: Seq::empty() }),
    {
        let r = Self::new(prefix, Some(value), Vec::new());
        proof {
            lemma_node_view(r);
            assert(r@.children =~= Seq::<(char, TrieLink)>::empty());
        }
        r
    }

    pub fn is_empty(&self) -> (b: bool)
        ensures
            b == (self@.value is None && self@.children.len() == 0),
    {
        proof {
            lemma_node_view(*self);
        }
        self.value.is_none() && self.children.len() == 0
    }

    /// The keys of the child links, each as a one-character string.
    pub fn properties(&self) -> (r: Vec<String>)
        ensures
            r@.len() == self@.children.len(),
            forall|j: int| 0 <= j < r@.len() ==> #[trigger] r@[j]@ == seq![self@.children[j].0],
    {
        proof {
            lemma_node_view(*self);
        }
        let mut r: Vec<String> = Vec::new();
        let mut i: usize = 0;
        while i < self.children.len()
            invariant
                i <= self.children.len(),
                r@.len() == i,
                forall|j: int| 0 <= j < i ==> #[trigger] r@[j]@ == seq![self.children@[j].0],
            decreases self.children.len() - i,
        {
            let mut k = String::new();
            crate::text::push_char(&mut k, self.children[i].0);
            assert(k@ =~= seq![self.children@[i as int].0]);
            r.push(k);
            i += 1;
        }
        r
    }

    /// Serializes to deterministic JSON bytes for CID computation.
    pub fn to_data(&self) -> (r: Result<Vec<u8>, CashewError>)
        ensures
            r matches Ok(b) && b@ == node_bytes(self@),
    {
        let s = node_json_text(self);
        Ok(s.as_str().as_bytes_vec())
    }
}

impl RadixNode<String> {
    /// The node's text form: its deterministic JSON.
    pub fn display_string(&self) -> (r: String)
        ensures
            r@ == node_json(self@),
    {
        node_json_text(self)
    }
}

} // verus!
